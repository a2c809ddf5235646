//! Addresses of files.
use vstd::prelude::*;
use vstd::utf8::encode_utf8;
use crate::wasm_host::{parts_of, PartView};

verus! {

/// Whether a character separates the parts of a path on some platform.
pub open spec fn is_separator(c: char) -> bool {
    c == '/' || c == '\\'
}

/// Whether a path has a prefix on some platform: that of a drive, as in `C:`, or one of those that
/// begin with two separators.
pub open spec fn may_have_prefix(path: Seq<char>) -> bool {
    path.len() > 1 && (path[1] == ':' || is_separator(path[0]) && is_separator(path[1]))
}

/// Whether an address takes a byte of a name over as it is.
pub open spec fn is_plain(b: u8) -> bool {
    &&& 0x20 < b < 0x7f
    &&& !seq!['"', '#', '%', '/', '<', '>', '?', '\\', '`', '{', '}'].contains(b as char)
}

/// A hexadecimal digit.
pub open spec fn hex_digit(n: int) -> char {
    if n < 10 {
        ('0' as int + n) as char
    } else {
        ('A' as int + n - 10) as char
    }
}

/// A byte of a name in an address: itself, or a percent sign and its two digits.
pub open spec fn escaped_byte(b: u8) -> Seq<char> {
    if is_plain(b) {
        seq![b as char]
    } else {
        seq!['%', hex_digit(b as int / 16), hex_digit(b as int % 16)]
    }
}

/// A name in an address, from its bytes.
pub open spec fn escaped(bytes: Seq<u8>) -> Seq<char>
    decreases bytes.len(),
{
    if bytes.len() == 0 {
        Seq::empty()
    } else {
        escaped(bytes.drop_last()) + escaped_byte(bytes.last())
    }
}

/// The name of a part of a path.
pub open spec fn part_name(part: PartView) -> Seq<char> {
    match part {
        PartView::Prefix(name) => name,
        PartView::Root => "/"@,
        PartView::Current => "."@,
        PartView::Parent => ".."@,
        PartView::Normal(name) => name,
    }
}

/// The parts of a path in an address, each behind a slash.
pub open spec fn address_parts(parts: Seq<PartView>) -> Seq<char>
    decreases parts.len(),
{
    if parts.len() == 0 {
        Seq::empty()
    } else {
        address_parts(parts.drop_last()) + "/"@ + escaped(encode_utf8(part_name(parts.last())))
    }
}

/// The address of a path that begins at the root: the scheme `file`, and the parts behind the root.
pub open spec fn address_of(path: Seq<char>) -> Seq<char> {
    let parts = parts_of(path).skip(1);
    "file://"@ + if parts.len() == 0 {
        "/"@
    } else {
        address_parts(parts)
    }
}

/// Whether a path can have this address. A path without a prefix has one only if it begins at the
/// root, and if so it has that of its parts. Otherwise the address begins with the scheme `file`.
pub open spec fn can_be_address(path: Seq<char>, url: Option<Seq<char>>) -> bool {
    &&& url matches Some(u) ==> "file://"@.is_prefix_of(u)
    &&& !may_have_prefix(path) ==> (url matches Some(u) ==> path.len() > 0 && path[0] == '/' && u
        == address_of(path))
}

/// The text of a string that may be missing.
pub open spec fn text_in(s: Option<String>) -> Option<Seq<char>> {
    match s {
        Some(s) => Some(s@),
        None => None,
    }
}

/// `Url::from_file_path` of `lsp_types`: the address of a file whose path is absolute, and none for
/// another path. A path without a prefix is absolute only if it begins at the root, and its address
/// is made of its parts, their bytes in UTF-8 escaped where they have to be. Whether such a path is
/// absolute, and what a path with a prefix is, depends on the platform and is left unsaid.
#[verifier::external_body]
pub(crate) fn file_url(path: &str) -> (r: Option<String>)
    ensures
        can_be_address(path@, text_in(r)),
{
    match lsp_types::Url::from_file_path(path) {
        Ok(url) => Some(url.as_str().to_string()),
        Err(_) => None,
    }
}

/// `String::from_utf8` of the standard library: the text that bytes stand for in UTF-8, and none
/// for bytes that are not valid UTF-8.
#[verifier::external_body]
pub(crate) fn utf8_text(bytes: Vec<u8>) -> (r: Option<String>)
    ensures
        r is Some <==> vstd::utf8::valid_utf8(bytes@),
        r matches Some(text) ==> text@ == vstd::utf8::decode_utf8(bytes@),
{
    String::from_utf8(bytes).ok()
}

/// Letters, digits and the marks that mean nothing in an address stand for themselves; what ends a
/// part of an address, and what cannot be printed, does not.
pub proof fn plain_bytes_stand_for_themselves(b: u8)
    ensures
        'a' as u8 <= b <= 'z' as u8 || 'A' as u8 <= b <= 'Z' as u8 || '0' as u8 <= b <= '9' as u8 || b
            == '-' as u8 || b == '.' as u8 || b == '_' as u8 || b == '~' as u8 ==> escaped_byte(b)
            == seq![b as char],
        b == '/' as u8 || b == '%' as u8 || b == '?' as u8 || b == '#' as u8 || b <= 0x20 || b >= 0x7f
            ==> escaped_byte(b).len() == 3,
{
    let marks = seq!['"', '#', '%', '/', '<', '>', '?', '\\', '`', '{', '}'];
    assert(marks[1] == '#' && marks[2] == '%' && marks[3] == '/' && marks[6] == '?');
    if marks.contains(b as char) {
        let i = choose|i: int| 0 <= i < marks.len() && marks[i] == b as char;
        assert(marks[i] == b as char);
    }
}

/// The value of a digit of sixteen.
pub open spec fn hex_value(c: char) -> int {
    if c <= '9' {
        c as int - '0' as int
    } else {
        c as int - 'A' as int + 10
    }
}

/// Every other byte is a percent sign and its two digits, of which the digits can be read back.
pub proof fn other_bytes_are_escaped(b: u8)
    requires
        !is_plain(b),
    ensures
        escaped_byte(b).len() == 3,
        escaped_byte(b)[0] == '%',
        hex_value(escaped_byte(b)[1]) * 16 + hex_value(escaped_byte(b)[2]) == b,
        '0' <= escaped_byte(b)[1] <= 'F',
        '0' <= escaped_byte(b)[2] <= 'F',
{
}

/// Bytes are escaped one behind the other.
pub proof fn bytes_are_escaped_in_turn(front: Seq<u8>, back: Seq<u8>, b: u8)
    ensures
        escaped(front + back) == escaped(front) + escaped(back),
        escaped(seq![b]) == escaped_byte(b),
    decreases back.len(),
{
    assert(seq![b].drop_last() == Seq::<u8>::empty());
    reveal_with_fuel(escaped, 2);
    if back.len() == 0 {
        assert(front + back == front);
    } else {
        bytes_are_escaped_in_turn(front, back.drop_last(), b);
        assert((front + back).drop_last() == front + back.drop_last());
    }
}

/// The parts of an address follow each other, each behind a slash.
pub proof fn parts_stand_behind_slashes(front: Seq<PartView>, back: Seq<PartView>, name: Seq<char>)
    ensures
        address_parts(front + back) == address_parts(front) + address_parts(back),
        address_parts(seq![PartView::Normal(name)]) == seq!['/'] + escaped(encode_utf8(name)),
    decreases back.len(),
{
    reveal_strlit("/");
    assert(seq![PartView::Normal(name)].drop_last() == Seq::<PartView>::empty());
    reveal_with_fuel(address_parts, 2);
    assert("/"@ =~= seq!['/']);
    if back.len() == 0 {
        assert(front + back == front);
    } else {
        parts_stand_behind_slashes(front, back.drop_last(), name);
        assert((front + back).drop_last() == front + back.drop_last());
        assert(address_parts(front + back) =~= address_parts(front) + address_parts(back));
    }
}

/// A path may have a prefix if its second character is a colon, or if it begins with two separators.
pub proof fn prefixes_are_noticed(path: Seq<char>)
    requires
        path.len() > 1,
    ensures
        path[1] == ':' ==> may_have_prefix(path),
        path[0] == '/' && path[1] == '/' ==> may_have_prefix(path),
        path[0] == '\\' && path[1] == '\\' ==> may_have_prefix(path),
        path[1] != ':' && path[1] != '/' && path[1] != '\\' ==> !may_have_prefix(path),
        path[1] != ':' && path[0] != '/' && path[0] != '\\' ==> !may_have_prefix(path),
{
}

/// The root has an address of its own; a name below the root, or below another name, is added behind a
/// slash.
pub proof fn addresses_grow_with_paths(text: Seq<char>, name: Seq<char>)
    requires
        name.len() > 0,
        !name.contains('/'),
        name != "."@,
        name != ".."@,
    ensures
        address_of(seq!['/']) == "file:///"@,
        address_of(seq!['/'] + name) == "file:///"@ + escaped(encode_utf8(name)),
        text.len() > 0 && parts_of(text).len() > 1 ==> address_of(text.push('/') + name)
            == address_of(text) + seq!['/'] + escaped(encode_utf8(name)),
{
    reveal_strlit("file://");
    reveal_strlit("file:///");
    reveal_strlit("/");
    assert("/"@ =~= seq!['/']);
    assert("file:///"@ =~= "file://"@ + "/"@);
    crate::wasm_host::single_names_are_parts(name);
    let part = PartView::Normal(name);
    assert(seq![PartView::Root].skip(1) == Seq::<PartView>::empty());
    assert(seq![PartView::Root, part].skip(1) == seq![part]);
    parts_stand_behind_slashes(Seq::empty(), Seq::empty(), name);
    assert(address_of(seq!['/'] + name) =~= "file:///"@ + escaped(encode_utf8(name)));
    if text.len() > 0 && parts_of(text).len() > 1 {
        crate::wasm_host::names_behind_slashes_are_parts(text, name);
        let parts = parts_of(text).skip(1);
        assert(parts_of(text).push(part).skip(1) == parts.push(part));
        assert(parts.push(part) == parts + seq![part]);
        parts_stand_behind_slashes(parts, seq![part], name);
        assert(address_of(text.push('/') + name) =~= address_of(text) + seq!['/'] + escaped(
            encode_utf8(name),
        ));
    }
}

} // verus!
