//! Text and the bytes that encode it.
use vstd::prelude::*;
use vstd::utf8::*;

verus! {

/// What `String::from_utf8_lossy` makes of bytes that are not UTF-8: the text with U+FFFD in place
/// of what does not decode.
pub uninterp spec fn utf8_lossy(bytes: Seq<u8>) -> Seq<char>;

/// The text that ASCII bytes spell.
pub open spec fn ascii_text(bytes: Seq<u8>) -> Seq<char> {
    bytes.map_values(|byte: u8| byte as char)
}

/// How many bytes come before the first that belongs to no character: the length of the longest
/// beginning that is UTF-8.
pub open spec fn valid_front(bytes: Seq<u8>) -> int
    decreases bytes.len(),
{
    if bytes.len() == 0 || !valid_first_scalar(bytes) {
        0
    } else {
        length_of_first_scalar(bytes) + valid_front(pop_first_scalar(bytes))
    }
}

/// The text that `bytes` stand for: what they encode, or the nearest to it where they encode
/// nothing.
pub open spec fn lossy_text(bytes: Seq<u8>) -> Seq<char> {
    if valid_utf8(bytes) {
        decode_utf8(bytes)
    } else {
        decode_utf8(bytes.take(valid_front(bytes))) + utf8_lossy(bytes.skip(valid_front(bytes)))
    }
}

/// `String::from_utf8_lossy`: UTF-8 is decoded as it stands. Of other bytes the contract claims that
/// only what is invalid is replaced: the longest beginning that is UTF-8 is decoded, U+FFFD comes
/// next, and equal bytes behind that beginning give equal text. Where further replacement characters
/// fall is not said.
#[verifier::external_body]
pub(crate) fn from_utf8_lossy(bytes: &[u8]) -> (text: String)
    ensures
        text@ == (if valid_utf8(bytes@) {
            decode_utf8(bytes@)
        } else {
            decode_utf8(bytes@.take(valid_front(bytes@))) + utf8_lossy(
                bytes@.skip(valid_front(bytes@)),
            )
        }),
        !valid_utf8(bytes@) ==> decode_utf8(bytes@.take(valid_front(bytes@))).push(
            '\u{FFFD}',
        ).is_prefix_of(text@),
{
    String::from_utf8_lossy(bytes).into_owned()
}

/// `std::str::from_utf8`: gives the text that the bytes encode, if and only if they are UTF-8.
#[verifier::external_body]
pub(crate) fn from_utf8(bytes: &[u8]) -> (text: Option<&str>)
    ensures
        text is Some <==> valid_utf8(bytes@),
        text matches Some(text) ==> text@ == decode_utf8(bytes@),
{
    std::str::from_utf8(bytes).ok()
}

/// `String::push`: the character is appended.
pub assume_specification[ String::push ](text: &mut String, c: char)
    ensures
        final(text)@ == old(text)@.push(c),
;

/// Whether two byte slices hold the same bytes.
pub fn same_bytes(a: &[u8], b: &[u8]) -> (same: bool)
    ensures
        same == (a@ == b@),
{
    if a.len() != b.len() {
        return false;
    }
    let mut i: usize = 0;
    while i < a.len()
        invariant
            i <= a.len(),
            a.len() == b.len(),
            a@.take(i as int) == b@.take(i as int),
        decreases a.len() - i,
    {
        if a[i] != b[i] {
            return false;
        }
        assert(a@.take(i + 1) == a@.take(i as int).push(a@[i as int]));
        assert(b@.take(i + 1) == b@.take(i as int).push(b@[i as int]));
        i += 1;
    }
    assert(a@.take(i as int) == a@);
    assert(b@.take(i as int) == b@);
    true
}

/// Whether two strings hold the same text.
pub fn same_text(a: &str, b: &str) -> (same: bool)
    ensures
        same == (a@ == b@),
{
    proof {
        encode_utf8_decode_utf8(a@);
        encode_utf8_decode_utf8(b@);
    }
    same_bytes(a.as_bytes(), b.as_bytes())
}

/// The longest beginning that is UTF-8 is one.
proof fn lemma_valid_front(bytes: Seq<u8>)
    ensures
        0 <= valid_front(bytes) <= bytes.len(),
        valid_utf8(bytes.take(valid_front(bytes))),
        bytes.len() > 0 && valid_first_scalar(bytes) ==> {
            let front = bytes.take(valid_front(bytes));
            &&& front.len() > 0
            &&& decode_utf8(front) == seq![decode_first_scalar(bytes) as char] + decode_utf8(
                pop_first_scalar(bytes).take(valid_front(pop_first_scalar(bytes))),
            )
        },
    decreases bytes.len(),
{
    if bytes.len() > 0 && valid_first_scalar(bytes) {
        let rest = pop_first_scalar(bytes);
        lemma_valid_front(rest);
        let front = bytes.take(valid_front(bytes));
        lemma_same_first_scalar(bytes, valid_front(bytes));
        assert(pop_first_scalar(front) =~= rest.take(valid_front(rest)));
    }
}

/// A beginning that has the first character whole starts with it.
proof fn lemma_same_first_scalar(bytes: Seq<u8>, k: int)
    requires
        valid_first_scalar(bytes),
        length_of_first_scalar(bytes) <= k <= bytes.len(),
    ensures
        valid_first_scalar(bytes.take(k)),
        decode_first_scalar(bytes.take(k)) == decode_first_scalar(bytes),
        length_of_first_scalar(bytes.take(k)) == length_of_first_scalar(bytes),
{
    let front = bytes.take(k);
    assert(front[0] == bytes[0]);
    assert(k >= 2 ==> front[1] == bytes[1]);
    assert(k >= 3 ==> front[2] == bytes[2]);
    assert(k >= 4 ==> front[3] == bytes[3]);
}

/// A character stands for itself, whatever comes behind it.
pub proof fn lemma_lossy_scalar(bytes: Seq<u8>)
    requires
        valid_first_scalar(bytes),
    ensures
        lossy_text(bytes) == seq![decode_first_scalar(bytes) as char] + lossy_text(
            pop_first_scalar(bytes),
        ),
{
    if !valid_utf8(bytes) {
        let rest = pop_first_scalar(bytes);
        lemma_valid_front(bytes);
        lemma_valid_front(rest);
        assert(bytes.skip(valid_front(bytes)) =~= rest.skip(valid_front(rest)));
        assert(lossy_text(bytes) =~= seq![decode_first_scalar(bytes) as char] + lossy_text(rest));
    }
}

/// Text in front of what does not decode is kept.
pub proof fn text_in_front_is_kept(bytes: Seq<u8>, k: int)
    requires
        0 <= k <= bytes.len(),
        valid_utf8(bytes.take(k)),
    ensures
        k <= valid_front(bytes),
        decode_utf8(bytes.take(k)).is_prefix_of(lossy_text(bytes)),
    decreases k,
{
    let front = bytes.take(k);
    lemma_valid_front(bytes);
    if k > 0 {
        assert(bytes[0] == front[0]);
        assert(k >= 2 ==> front[1] == bytes[1]);
        assert(k >= 3 ==> front[2] == bytes[2]);
        assert(k >= 4 ==> front[3] == bytes[3]);
        assert(valid_first_scalar(bytes));
        let rest = pop_first_scalar(bytes);
        let n = length_of_first_scalar(bytes);
        assert(pop_first_scalar(front) =~= rest.take(k - n));
        text_in_front_is_kept(rest, k - n);
        lemma_lossy_scalar(bytes);
        let kept = decode_utf8(rest.take(k - n));
        assert(decode_utf8(front) =~= lossy_text(bytes).take(decode_utf8(front).len() as int)) by {
            assert(kept =~= lossy_text(rest).take(kept.len() as int));
        }
    } else {
        assert(decode_utf8(front) =~= seq![]);
    }
}

/// Whether `bytes` start with a surrogate, encoded in three bytes as other code points are.
pub open spec fn starts_with_surrogate(bytes: Seq<u8>) -> bool {
    &&& bytes.len() >= 3
    &&& bytes[0] == 0xed
    &&& 0xa0 <= bytes[1] <= 0xbf
    &&& 0x80 <= bytes[2] <= 0xbf
}

/// `bytes` with the encoding of U+FFFD in place of each surrogate.
pub open spec fn without_surrogates(bytes: Seq<u8>) -> Seq<u8>
    decreases bytes.len(),
{
    if bytes.len() == 0 {
        seq![]
    } else if starts_with_surrogate(bytes) {
        seq![0xefu8, 0xbfu8, 0xbdu8] + without_surrogates(bytes.skip(3))
    } else {
        seq![bytes[0]] + without_surrogates(bytes.skip(1))
    }
}

/// Replace each surrogate.
pub fn replace_surrogates(bytes: &[u8]) -> (result: Vec<u8>)
    ensures
        result@ == without_surrogates(bytes@),
{
    let mut result: Vec<u8> = Vec::new();
    let mut i: usize = 0;
    assert(bytes@.skip(0) =~= bytes@);
    while i < bytes.len()
        invariant
            i <= bytes.len(),
            result@ + without_surrogates(bytes@.skip(i as int)) == without_surrogates(bytes@),
        decreases bytes.len() - i,
    {
        let ghost before = result@;
        let ghost rest = bytes@.skip(i as int);
        if bytes.len() - i >= 3 && bytes[i] == 0xed && 0xa0 <= bytes[i + 1] && bytes[i + 1] <= 0xbf
            && 0x80 <= bytes[i + 2] && bytes[i + 2] <= 0xbf {
            result.push(0xef);
            result.push(0xbf);
            result.push(0xbd);
            assert(rest.skip(3) =~= bytes@.skip(i + 3));
            assert(result@ =~= before + seq![0xefu8, 0xbfu8, 0xbdu8]);
            i += 3;
        } else {
            result.push(bytes[i]);
            assert(rest.skip(1) =~= bytes@.skip(i + 1));
            assert(result@ =~= before + seq![rest[0]]);
            i += 1;
        }
        assert(result@ + without_surrogates(bytes@.skip(i as int)) =~= before
            + without_surrogates(rest));
    }
    assert(bytes@.skip(i as int) =~= seq![]);
    assert(result@ =~= without_surrogates(bytes@));
    result
}

/// UTF-8 holds no surrogates.
pub proof fn text_has_no_surrogates(bytes: Seq<u8>)
    requires
        valid_utf8(bytes),
    ensures
        without_surrogates(bytes) == bytes,
    decreases bytes.len(),
{
    if bytes.len() > 0 {
        let n = length_of_first_scalar(bytes);
        let rest = pop_first_scalar(bytes);
        text_has_no_surrogates(rest);
        assert(rest =~= bytes.skip(n));
        if n == 3 && bytes[0] == 0xed {
            let (x, y, z) = (bytes[0], bytes[1], bytes[2]);
            assert(x == 0xed && 0xa0 <= y <= 0xbf && 0x80 <= z <= 0xbf ==> 0xD800 <= ((((x
                & 0x0F) as u32) << 12) | (((y & 0x3f) as u32) << 6) | ((z & 0x3f) as u32))
                <= 0xDFFF) by (bit_vector);
        }
        assert(!starts_with_surrogate(bytes));
        assert(without_surrogates(bytes) == seq![bytes[0]] + without_surrogates(bytes.skip(1)));
        lemma_not_replaced(bytes.skip(1), n - 1);
        assert(bytes.skip(1).skip(n - 1) =~= rest);
        assert(bytes.skip(1).take(n - 1) + rest =~= bytes.skip(1));
        assert(seq![bytes[0]] + bytes.skip(1) =~= bytes);
    }
}

/// What holds no 0xED is left alone.
proof fn lemma_not_replaced(bytes: Seq<u8>, n: int)
    requires
        0 <= n <= bytes.len(),
        forall|i: int| 0 <= i < n ==> #[trigger] bytes[i] != 0xed,
    ensures
        without_surrogates(bytes) == bytes.take(n) + without_surrogates(bytes.skip(n)),
    decreases n,
{
    if n == 0 {
        assert(bytes.skip(0) =~= bytes);
        assert(bytes.take(0) =~= seq![]);
    } else {
        let rest = bytes.skip(1);
        assert(bytes[0] != 0xed);
        assert forall|i: int| 0 <= i < n - 1 implies #[trigger] rest[i] != 0xed by {
            assert(bytes[i + 1] != 0xed);
        }
        lemma_not_replaced(rest, n - 1);
        assert(rest.skip(n - 1) =~= bytes.skip(n));
        assert(bytes.take(n) =~= seq![bytes[0]] + rest.take(n - 1));
    }
    assert(without_surrogates(bytes) =~= bytes.take(n) + without_surrogates(bytes.skip(n)));
}

} // verus!
