//! Public names of image files: which files are served, and the name under
//! which each is asked for in a request path.

use vstd::prelude::*;
use vstd::string::*;
use vstd::utf8::{encode_utf8, is_ascii_chars};

verus! {

/// The upper-case hexadecimal digit of a number below sixteen.
pub open spec fn hex_digit(n: nat) -> char {
    if n < 10 {
        (n + '0' as nat) as char
    } else {
        (n - 10 + 'A' as nat) as char
    }
}

/// A byte written as a percent sign and its two hexadecimal digits.
pub open spec fn escape_text(byte: u8) -> Seq<char> {
    seq!['%', hex_digit(byte as nat / 16), hex_digit(byte as nat % 16)]
}

/// `percent_encoding::percent_encode_byte` returns the three characters that
/// stand for a byte in a URL: `%` and the byte's value in two upper-case
/// hexadecimal digits.
pub assume_specification[ percent_encoding::percent_encode_byte ](byte: u8) -> (res: &'static str)
    ensures
        res@ == escape_text(byte),
;

/// The bytes that a name does not carry as they are: the blank, the control
/// characters, and every byte of a character outside ASCII.
pub open spec fn is_reserved(byte: u8) -> bool {
    byte <= 0x20 || byte >= 0x7f
}

/// One byte of a path as a name writes it.
pub open spec fn encoded_byte(byte: u8) -> Seq<char> {
    if is_reserved(byte) {
        escape_text(byte)
    } else {
        seq![byte as char]
    }
}

/// A run of bytes as a name writes it, byte by byte.
pub open spec fn encoded(bytes: Seq<u8>) -> Seq<char>
    decreases bytes.len(),
{
    if bytes.len() == 0 {
        Seq::empty()
    } else {
        encoded(bytes.drop_last()) + encoded_byte(bytes.last())
    }
}

/// Encoded text holds only plain ASCII: no blank, no control character.
pub proof fn lemma_encoded_is_plain(bytes: Seq<u8>)
    ensures
        is_plain(encoded(bytes)),
    decreases bytes.len(),
{
    if bytes.len() > 0 {
        lemma_encoded_is_plain(bytes.drop_last());
        let head = encoded(bytes.drop_last());
        let tail = encoded_byte(bytes.last());
        assert forall|i: int| 0 <= i < encoded(bytes).len() implies is_plain_char(
            #[trigger] encoded(bytes)[i],
        ) by {
            if i < head.len() {
                assert(is_plain_char(head[i]));
            } else {
                assert(encoded(bytes)[i] == tail[i - head.len()]);
            }
        }
    }
}

/// A character that a name may hold: printable ASCII other than the blank.
pub open spec fn is_plain_char(c: char) -> bool {
    '!' <= c && c <= '~'
}

/// True when every character is one that a name may hold.
pub open spec fn is_plain(s: Seq<char>) -> bool {
    forall|i: int| 0 <= i < s.len() ==> is_plain_char(#[trigger] s[i])
}

/// Plain text is ASCII.
pub proof fn lemma_plain_is_ascii(s: Seq<char>)
    requires
        is_plain(s),
    ensures
        is_ascii_chars(s),
{
    assert forall|i: int| 0 <= i < s.len() implies '\0' <= #[trigger] s[i] <= '\u{7f}' by {
        assert(is_plain_char(s[i]));
    }
}

/// Appends one path component to a name in its encoded form: reserved
/// bytes as percent escapes, every other byte as it is.
pub fn push_encoded(out: &mut String, component: &str)
    ensures
        final(out)@ == old(out)@ + encoded(encode_utf8(component@)),
{
    let bytes = component.as_bytes();
    let n = bytes.len();
    let mut i: usize = 0;
    assert(bytes@.take(0) =~= Seq::<u8>::empty());
    while i < n
        invariant
            n == bytes@.len(),
            0 <= i <= n,
            out@ == old(out)@ + encoded(bytes@.take(i as int)),
        decreases n - i,
    {
        let b = bytes[i];
        proof {
            let next = bytes@.take(i + 1);
            assert(next.drop_last() =~= bytes@.take(i as int));
            assert(next.last() == b);
        }
        let ghost before = out@;
        if b <= 0x20 || b >= 0x7f {
            out.append(percent_encoding::percent_encode_byte(b));
        } else {
            out.push(b as char);
            assert(before.push(b as char) =~= before + seq![b as char]);
        }
        assert(out@ =~= old(out)@ + encoded(bytes@.take(i + 1)));
        i += 1;
    }
    assert(bytes@.take(n as int) =~= bytes@);
}

/// The code of `.`.
pub const DOT: u8 = 46;

/// A byte with the upper-case ASCII letters folded onto the lower-case ones.
pub open spec fn lower(byte: u8) -> u8 {
    if 65 <= byte <= 90 {
        (byte + 32) as u8
    } else {
        byte
    }
}

/// Two runs of bytes that differ at most in the case of ASCII letters.
pub open spec fn same_ignoring_case(a: Seq<u8>, b: Seq<u8>) -> bool {
    a.len() == b.len() && forall|i: int| 0 <= i < a.len() ==> lower(#[trigger] a[i]) == lower(b[i])
}

/// Where the last dot of a file name stands; -1 where it has none.
pub open spec fn last_dot(name: Seq<u8>) -> int
    decreases name.len(),
{
    if name.len() == 0 {
        -1
    } else if name.last() == DOT {
        name.len() - 1
    } else {
        last_dot(name.drop_last())
    }
}

/// The extension of a file name: what follows its last dot. A name without
/// a dot has none, and neither has one whose only dot is its first byte.
pub open spec fn extension(name: Seq<u8>) -> Option<Seq<u8>> {
    let dot = last_dot(name);
    if dot > 0 {
        Some(name.skip(dot + 1))
    } else {
        None
    }
}

/// True when the file name has an extension and the filter lists it, in
/// whatever case either is written.
pub open spec fn is_selected(name: Seq<char>, filter: Seq<String>) -> bool {
    extension(encode_utf8(name)) matches Some(e) && exists|k: int|
        0 <= k < filter.len() && same_ignoring_case(e, encode_utf8(#[trigger] filter[k]@))
}

/// The last dot stands where a dot is and no dot follows.
pub proof fn lemma_last_dot(name: Seq<u8>, at: int)
    requires
        -1 <= at < name.len(),
        at >= 0 ==> name[at] == DOT,
        forall|j: int| at < j < name.len() ==> name[j] != DOT,
    ensures
        last_dot(name) == at,
    decreases name.len(),
{
    if name.len() > 0 && name.last() != DOT {
        lemma_last_dot(name.drop_last(), at);
    }
}

fn lower_byte(byte: u8) -> (res: u8)
    ensures
        res == lower(byte),
{
    if 65 <= byte && byte <= 90 {
        byte + 32
    } else {
        byte
    }
}

/// Compares what follows position `from` of `name` with `ext`, ignoring
/// the case of ASCII letters.
fn tail_matches(name: &[u8], from: usize, ext: &[u8]) -> (res: bool)
    requires
        from <= name@.len(),
    ensures
        res == same_ignoring_case(name@.skip(from as int), ext@),
{
    let n = name.len() - from;
    if ext.len() != n {
        return false;
    }
    let mut i: usize = 0;
    while i < n
        invariant
            from + n == name@.len(),
            name@.len() <= usize::MAX,
            ext@.len() == n,
            0 <= i <= n,
            forall|j: int| 0 <= j < i ==> lower(#[trigger] name@.skip(from as int)[j]) == lower(ext@[j]),
        decreases n - i,
    {
        if lower_byte(name[from + i]) != lower_byte(ext[i]) {
            assert(name@.skip(from as int)[i as int] == name@[from + i]);
            return false;
        }
        assert(name@.skip(from as int)[i as int] == name@[from + i]);
        i += 1;
    }
    true
}

/// Tells whether a file of this name is served under the filter: whether
/// its extension is one that the filter lists, ignoring case.
pub fn has_listed_extension(file_name: &str, filter: &Vec<String>) -> (res: bool)
    ensures
        res == is_selected(file_name@, filter@),
{
    let name = file_name.as_bytes();
    let mut dot: usize = name.len();
    while dot > 0 && name[dot - 1] != DOT
        invariant
            0 <= dot <= name@.len(),
            forall|j: int| dot <= j < name@.len() ==> name@[j] != DOT,
        decreases dot,
    {
        dot -= 1;
    }
    proof {
        lemma_last_dot(name@, dot - 1);
    }
    if dot <= 1 {
        return false;
    }
    let mut k: usize = 0;
    while k < filter.len()
        invariant
            name@ == encode_utf8(file_name@),
            1 < dot <= name@.len(),
            last_dot(name@) == dot - 1,
            0 <= k <= filter.len(),
            forall|j: int|
                0 <= j < k ==> !same_ignoring_case(
                    name@.skip(dot as int),
                    encode_utf8(#[trigger] filter@[j]@),
                ),
        decreases filter.len() - k,
    {
        if tail_matches(name, dot, filter[k].as_str().as_bytes()) {
            assert(same_ignoring_case(name@.skip(dot as int), encode_utf8(filter@[k as int]@)));
            return true;
        }
        k += 1;
    }
    false
}

/// The name of a file from the components of its path below the root: each
/// component encoded, with a slash between one and the next.
pub open spec fn joined(components: Seq<String>) -> Seq<char>
    decreases components.len(),
{
    if components.len() == 0 {
        Seq::empty()
    } else if components.len() == 1 {
        encoded(encode_utf8(components[0]@))
    } else {
        joined(components.drop_last()) + seq!['/'] + encoded(encode_utf8(components.last()@))
    }
}

/// A name holds only plain ASCII.
pub proof fn lemma_joined_is_plain(components: Seq<String>)
    ensures
        is_plain(joined(components)),
    decreases components.len(),
{
    if components.len() == 1 {
        lemma_encoded_is_plain(encode_utf8(components[0]@));
    } else if components.len() > 1 {
        lemma_joined_is_plain(components.drop_last());
        lemma_encoded_is_plain(encode_utf8(components.last()@));
        let head = joined(components.drop_last());
        let tail = encoded(encode_utf8(components.last()@));
        assert forall|i: int| 0 <= i < joined(components).len() implies is_plain_char(
            #[trigger] joined(components)[i],
        ) by {
            if i < head.len() {
                assert(is_plain_char(head[i]));
            } else if i > head.len() {
                assert(is_plain_char(tail[i - head.len() - 1]));
            }
        }
    }
}

/// Builds the name of a file from the components of its path below the
/// root.
pub fn join_encoded(components: &Vec<String>) -> (res: String)
    ensures
        res@ == joined(components@),
        is_plain(res@),
{
    let mut out = String::new();
    let mut i: usize = 0;
    assert(components@.take(0) =~= Seq::<String>::empty());
    while i < components.len()
        invariant
            0 <= i <= components.len(),
            out@ == joined(components@.take(i as int)),
        decreases components.len() - i,
    {
        proof {
            let next = components@.take(i + 1);
            assert(next.drop_last() =~= components@.take(i as int));
            assert(next.last() == components@[i as int]);
            assert(next[0] == components@[0]);
        }
        let ghost before = out@;
        if i > 0 {
            out.push('/');
            assert(before.push('/') =~= before + seq!['/']);
        } else {
            assert(out@ =~= Seq::<char>::empty());
        }
        push_encoded(&mut out, components[i].as_str());
        assert(out@ =~= joined(components@.take(i + 1)));
        i += 1;
    }
    proof {
        assert(components@.take(components.len() as int) =~= components@);
        lemma_joined_is_plain(components@);
    }
    out
}

} // verus!
