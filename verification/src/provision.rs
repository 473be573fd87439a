use vstd::prelude::*;
use vstd::utf8::encode_utf8;
use crate::text::{ascii_chars_of, bytes_to_string, dec_chars, lemma_ascii_bytes_decode, u64_to_string};
use rand::Rng;

verus! {

/// The exact line a container prints when it is ready to accept
/// connections; nothing else counts as the readiness marker.
pub const READY_MARKER: &'static str = "<<READY_TO_ACCEPT_CONN>>";

/// Whether `b` is an ASCII letter or digit.
pub open spec fn is_ascii_alnum_byte(b: u8) -> bool {
    (0x30 <= b <= 0x39) || (0x41 <= b <= 0x5A) || (0x61 <= b <= 0x7A)
}

/// Relies on rand's `Alphanumeric` distribution: every sampled byte is an
/// ASCII letter or digit, and `take(n)` yields exactly `n` of them.
#[verifier::external_body]
fn sample_alphanumeric_bytes(n: usize) -> (r: Vec<u8>)
    ensures
        r@.len() == n,
        forall|i: int| 0 <= i < r@.len() ==> is_ascii_alnum_byte(#[trigger] r@[i]),
{
    rand::thread_rng().sample_iter(&rand::distributions::Alphanumeric).take(n).collect()
}

/// Relies on `rand::random` for a uniformly sampled number; nothing is
/// promised of the value.
#[verifier::external_body]
fn random_u16() -> u16 {
    rand::random::<u16>()
}

/// A random container name the engine accepts: `c-` followed by ten random
/// lowercase ASCII letters or digits.
#[verifier::loop_isolation(false)]
pub fn random_container_name() -> (r: String)
    ensures
        r@.len() == 12,
        r@[0] == 'c',
        r@[1] == '-',
        forall|i: int|
            2 <= i < 12 ==> (('a' <= #[trigger] r@[i] <= 'z') || ('0' <= r@[i] <= '9')),
{
    let sampled = sample_alphanumeric_bytes(10);
    let mut bytes: Vec<u8> = Vec::new();
    bytes.push(0x63);
    bytes.push(0x2D);
    let mut i: usize = 0;
    while i < 10
        invariant
            0 <= i <= 10,
            sampled@.len() == 10,
            forall|j: int| 0 <= j < sampled@.len() ==> is_ascii_alnum_byte(#[trigger] sampled@[j]),
            bytes@.len() == i + 2,
            bytes@[0] == 0x63 && bytes@[1] == 0x2D,
            forall|j: int|
                2 <= j < bytes@.len() ==> ((0x61 <= #[trigger] bytes@[j] <= 0x7A) || (0x30
                    <= bytes@[j] <= 0x39)),
        decreases 10 - i,
    {
        let b = sampled[i];
        let lowered = if b >= 0x41 && b <= 0x5A {
            b + 0x20
        } else {
            b
        };
        bytes.push(lowered);
        i = i + 1;
    }
    proof {
        assert(forall|j: int| 0 <= j < bytes@.len() ==> #[trigger] bytes@[j] < 0x80);
        lemma_ascii_bytes_decode(bytes@);
    }
    match bytes_to_string(bytes) {
        Some(name) => {
            proof {
                assert(name@ == ascii_chars_of(bytes@));
                assert(name@.len() == 12);
                assert(name@[0] == bytes@[0] as char);
                assert(name@[1] == bytes@[1] as char);
                assert forall|i: int| 2 <= i < 12 implies (('a' <= #[trigger] name@[i] <= 'z') || (
                '0' <= name@[i] <= '9')) by {
                    assert(name@[i] == bytes@[i] as char);
                    assert((0x61 <= bytes@[i] <= 0x7A) || (0x30 <= bytes@[i] <= 0x39));
                }
            }
            name
        },
        None => {
            proof {
                assert(false);
            }
            String::new()
        },
    }
}

/// A random host port in `[8000, 9000)`, rendered in decimal as the engine
/// API takes it.
pub fn random_port() -> (r: String)
    ensures
        exists|p: u16| 8000 <= p < 9000 && r@ == dec_chars(p as nat),
{
    let raw = random_u16();
    let port: u16 = raw % 1000 + 8000;
    let s = u64_to_string(port as u64);
    assert(8000 <= port < 9000);
    assert(s@ == dec_chars(port as nat));
    s
}

/// Whether the marker stands somewhere in the text: the readiness check the
/// provisioning path applies to each chunk of container output.
#[verifier::loop_isolation(false)]
pub fn contains_ready_marker(text: &str) -> (r: bool)
    ensures
        r == exists|i: int|
            0 <= i <= encode_utf8(text@).len() - encode_utf8(READY_MARKER@).len()
                && #[trigger] encode_utf8(text@).subrange(
                i,
                i + encode_utf8(READY_MARKER@).len(),
            ) == encode_utf8(READY_MARKER@),
{
    let tb = crate::text::string_bytes(text);
    let mb = crate::text::string_bytes(READY_MARKER);
    let tn = tb.len();
    let mn = mb.len();
    if mn > tn {
        return false;
    }
    let mut i: usize = 0;
    while i <= tn - mn
        invariant
            0 <= i <= tn - mn + 1,
            mn <= tn,
            tn == tb@.len(),
            mn == mb@.len(),
            tb@ == encode_utf8(text@),
            mb@ == encode_utf8(READY_MARKER@),
            forall|k: int| 0 <= k < i ==> #[trigger] tb@.subrange(k, k + mn) != mb@,
        decreases tn - mn - i + 1,
    {
        let mut j: usize = 0;
        let mut matched = true;
        while j < mn
            invariant
                0 <= j <= mn,
                i + mn <= tn,
                tn == tb@.len(),
                mn == mb@.len(),
                matched == (forall|k: int| 0 <= k < j ==> tb@[i + k] == #[trigger] mb@[k]),
            decreases mn - j,
        {
            if tb[i + j] != mb[j] {
                assert(tb@[i + j as int] != mb@[j as int]);
                matched = false;
                j = mn;
            } else {
                assert(tb@[i + j as int] == mb@[j as int]);
                j = j + 1;
            }
        }
        if matched {
            assert(tb@.subrange(i as int, i + mn) =~= mb@);
            return true;
        }
        assert(tb@.subrange(i as int, i + mn) != mb@) by {
            let k = choose|k: int| 0 <= k < mn && tb@[i + k] != mb@[k];
            assert(tb@.subrange(i as int, i + mn)[k] == tb@[i + k]);
        }
        i = i + 1;
    }
    false
}

} // verus!
