//! Numbers, versions and package names as text.

use vstd::prelude::*;
use vstd::string::*;
use crate::model::{Version, VersionView};

verus! {

/// The character of a decimal digit.
pub open spec fn digit(d: nat) -> char {
    if d == 0 {
        '0'
    } else if d == 1 {
        '1'
    } else if d == 2 {
        '2'
    } else if d == 3 {
        '3'
    } else if d == 4 {
        '4'
    } else if d == 5 {
        '5'
    } else if d == 6 {
        '6'
    } else if d == 7 {
        '7'
    } else if d == 8 {
        '8'
    } else {
        '9'
    }
}

/// A number in decimal digits, without leading zeros.
pub open spec fn decimal(n: nat) -> Seq<char>
    decreases n,
{
    if n < 10 {
        seq![digit(n)]
    } else {
        decimal(n / 10) + seq![digit(n % 10)]
    }
}

/// The three numbers of a version as text, joined by dots.
pub open spec fn numbers_text(v: VersionView) -> Seq<char> {
    decimal(v.major as nat) + seq!['.'] + decimal(v.minor as nat) + seq!['.'] + decimal(
        v.patch as nat,
    )
}

/// A tag of a version as text: nothing where the tag is empty, else the
/// mark that sets it off and the tag.
pub open spec fn tag_text(mark: char, tag: Seq<char>) -> Seq<char> {
    if tag.len() == 0 {
        Seq::empty()
    } else {
        seq![mark] + tag
    }
}

/// A version as text: the three numbers, joined by dots; then the
/// pre-release tag after a hyphen and the build metadata after a plus sign,
/// where the version has them.
pub open spec fn version_text(v: VersionView) -> Seq<char> {
    numbers_text(v) + tag_text('-', v.pre) + tag_text('+', v.build)
}

/// What stands for a character in a mangled name: an underscore for a dot
/// or a plus sign, else the character itself.
pub open spec fn mangled_char(c: char) -> char {
    if c == '.' || c == '+' {
        '_'
    } else {
        c
    }
}

/// A name with every dot and plus sign replaced by an underscore.
pub open spec fn mangled(s: Seq<char>) -> Seq<char> {
    Seq::new(s.len(), |i: int| mangled_char(s[i]))
}

fn push_digit(text: &mut String, d: u64)
    requires
        d < 10,
    ensures
        final(text)@ == old(text)@ + seq![digit(d as nat)],
{
    proof {
        reveal_strlit("0");
        reveal_strlit("1");
        reveal_strlit("2");
        reveal_strlit("3");
        reveal_strlit("4");
        reveal_strlit("5");
        reveal_strlit("6");
        reveal_strlit("7");
        reveal_strlit("8");
        reveal_strlit("9");
    }
    let ghost before = text@;
    if d == 0 {
        text.append("0");
        assert("0"@ =~= seq!['0']);
    } else if d == 1 {
        text.append("1");
        assert("1"@ =~= seq!['1']);
    } else if d == 2 {
        text.append("2");
        assert("2"@ =~= seq!['2']);
    } else if d == 3 {
        text.append("3");
        assert("3"@ =~= seq!['3']);
    } else if d == 4 {
        text.append("4");
        assert("4"@ =~= seq!['4']);
    } else if d == 5 {
        text.append("5");
        assert("5"@ =~= seq!['5']);
    } else if d == 6 {
        text.append("6");
        assert("6"@ =~= seq!['6']);
    } else if d == 7 {
        text.append("7");
        assert("7"@ =~= seq!['7']);
    } else if d == 8 {
        text.append("8");
        assert("8"@ =~= seq!['8']);
    } else {
        text.append("9");
        assert("9"@ =~= seq!['9']);
    }
}

/// Appends `n` in decimal digits.
pub fn push_decimal(text: &mut String, n: u64)
    ensures
        final(text)@ == old(text)@ + decimal(n as nat),
    decreases n,
{
    let ghost before = text@;
    if n >= 10 {
        push_decimal(text, n / 10);
        push_digit(text, n % 10);
        assert(text@ =~= before + decimal(n as nat));
    } else {
        push_digit(text, n);
    }
}

/// Appends a version as text.
pub fn push_version(text: &mut String, v: &Version)
    ensures
        final(text)@ == old(text)@ + version_text(v@),
{
    proof {
        reveal_strlit(".");
        reveal_strlit("-");
        reveal_strlit("+");
        assert("."@ =~= seq!['.']);
        assert("-"@ =~= seq!['-']);
        assert("+"@ =~= seq!['+']);
    }
    let ghost before = text@;
    push_decimal(text, v.major);
    text.append(".");
    push_decimal(text, v.minor);
    text.append(".");
    push_decimal(text, v.patch);
    assert(text@ =~= before + numbers_text(v@));
    if v.pre.as_str().unicode_len() > 0 {
        text.append("-");
        text.append(v.pre.as_str());
    }
    assert(text@ =~= before + numbers_text(v@) + tag_text('-', v@.pre));
    if v.build.as_str().unicode_len() > 0 {
        text.append("+");
        text.append(v.build.as_str());
    }
    assert(text@ =~= before + version_text(v@));
}

/// A version as text.
pub fn version_string(v: &Version) -> (r: String)
    ensures
        r@ == version_text(v@),
{
    let mut text = String::from_str("");
    proof {
        reveal_strlit("");
        assert(""@ =~= Seq::<char>::empty());
    }
    push_version(&mut text, v);
    assert(text@ =~= version_text(v@));
    text
}

/// Appends `s` with every dot and plus sign replaced by an underscore.
pub fn push_mangled(text: &mut String, s: &str)
    ensures
        final(text)@ == old(text)@ + mangled(s@),
{
    proof {
        reveal_strlit("_");
        assert("_"@ =~= seq!['_']);
    }
    let ghost before = text@;
    let len = s.unicode_len();
    let mut i: usize = 0;
    while i < len
        invariant
            i <= len,
            len == s@.len(),
            "_"@ == seq!['_'],
            text@ == before + mangled(s@).subrange(0, i as int),
        decreases len - i,
    {
        let c = s.get_char(i);
        let ghost prior = text@;
        if c == '.' || c == '+' {
            text.append("_");
        } else {
            let piece = s.substring_char(i, i + 1);
            assert(piece@ =~= seq![c]);
            text.append(piece);
        }
        assert(text@ =~= before + mangled(s@).subrange(0, i + 1)) by {
            assert(text@ == prior + seq![mangled_char(c)]);
            assert(mangled(s@).subrange(0, i + 1) =~= mangled(s@).subrange(0, i as int) + seq![
                mangled_char(c),
            ]);
        }
        i += 1;
    }
    assert(mangled(s@).subrange(0, len as int) =~= mangled(s@));
}

/// The name under which a package would stand in its directory of fetched
/// sources: the name, a hyphen and the version.
pub open spec fn fetched_name(name: Seq<char>, v: VersionView) -> Seq<char> {
    name + seq!['-'] + version_text(v)
}

/// The directory of the fetched sources of a package, inside the directory
/// of all fetched sources. The version that stands for the project itself
/// has no sources: for it there is none.
pub fn fetched_pkg(name: &str, version: &Version) -> (r: Option<String>)
    ensures
        match r {
            Some(dir) => version@ != Version::root() && dir@ == fetched_name(name@, version@),
            None => version@ == Version::root(),
        },
{
    if version.is_root() {
        return None;
    }
    proof {
        reveal_strlit("-");
        assert("-"@ =~= seq!['-']);
    }
    let mut text = String::from_str(name);
    text.append("-");
    push_version(&mut text, version);
    Some(text)
}

/// The line by which a manifest asks for one package at one exact version,
/// under a name that no other version of the package has.
pub open spec fn fetch_line(name: Seq<char>, v: VersionView) -> Seq<char> {
    seq!['"'] + mangled(name + seq!['_'] + version_text(v)) + "\" = { version = \"="@ + version_text(
        v,
    ) + "\", package = \""@ + name + "\" }"@
}

/// The manifest line for fetching a package. The version that stands for
/// the project itself is no real package: for it there is no line.
pub fn fetch_manifest_line(name: &str, version: &Version) -> (r: Option<String>)
    ensures
        match r {
            Some(line) => version@ != Version::root() && line@ == fetch_line(name@, version@),
            None => version@ == Version::root(),
        },
{
    if version.is_root() {
        return None;
    }
    proof {
        reveal_strlit("\"");
        reveal_strlit("_");
        assert("\""@ =~= seq!['"']);
        assert("_"@ =~= seq!['_']);
    }
    let mut plain = String::from_str(name);
    plain.append("_");
    push_version(&mut plain, version);
    let mut text = String::from_str("\"");
    push_mangled(&mut text, plain.as_str());
    text.append("\" = { version = \"=");
    push_version(&mut text, version);
    text.append("\", package = \"");
    text.append(name);
    text.append("\" }");
    assert(text@ =~= fetch_line(name@, version@));
    Some(text)
}

} // verus!
