use vstd::prelude::*;
use vstd::utf8::encode_utf8;
use crate::text::{
    ascii_chars_of, bytes_to_string, dec_chars, lemma_ascii_bytes_decode, string_bytes,
    u64_to_string,
};

verus! {

/// The uppercased form of an ASCII lowercase letter; any other character
/// stands for itself.
pub open spec fn spec_upper(c: char) -> char {
    if 'a' <= c <= 'z' {
        ((c as u32) - 0x20) as char
    } else {
        c
    }
}

/// Camel casing: hyphens are dropped, and the character after a hyphen, or
/// at the very front, is uppercased.
pub open spec fn spec_camel(s: Seq<char>, capitalize: bool) -> Seq<char>
    decreases s.len(),
{
    if s.len() == 0 {
        Seq::empty()
    } else if s[0] == '-' {
        spec_camel(s.drop_first(), true)
    } else if capitalize {
        seq![spec_upper(s[0])] + spec_camel(s.drop_first(), false)
    } else {
        seq![s[0]] + spec_camel(s.drop_first(), false)
    }
}

/// The handler name scaffolded for a function: its name camel-cased, with
/// `Handler` appended.  A name with characters beyond ASCII is kept as it
/// is, only suffixed.
#[verifier::loop_isolation(false)]
pub fn to_camel_case_handler(input: &str) -> (r: String)
    ensures
        input.is_ascii() ==> r@ == spec_camel(input@, true) + "Handler"@,
        !input.is_ascii() ==> r@ == input@ + "Handler"@,
{
    if !input.is_ascii() {
        return input.to_owned().concat("Handler");
    }
    let b = string_bytes(input);
    proof {
        vstd::utf8::is_ascii_chars_encode_utf8(input@);
        assert(forall|i: int| 0 <= i < b@.len() ==> #[trigger] b@[i] < 0x80) by {
            vstd::utf8::is_ascii_chars_nat_bound(input@);
            assert(forall|i: int|
                0 <= i < b@.len() ==> #[trigger] b@[i] == input@[i] as u8 && (input@[i] as nat)
                    < 128);
        }
        lemma_ascii_bytes_decode(b@);
        assert(ascii_chars_of(b@) =~= input@) by {
            assert(forall|i: int|
                0 <= i < b@.len() ==> #[trigger] ascii_chars_of(b@)[i] == (input@[i] as u8) as char
                    && (input@[i] as u8) as char == input@[i]);
        }
    }
    let n = b.len();
    let mut out: Vec<u8> = Vec::new();
    let mut cap = true;
    let mut i: usize = 0;
    assert(b@.skip(0) =~= b@);
    assert(ascii_chars_of(out@) =~= Seq::<char>::empty());
    while i < n
        invariant
            0 <= i <= n == b@.len(),
            forall|j: int| 0 <= j < b@.len() ==> #[trigger] b@[j] < 0x80,
            forall|j: int| 0 <= j < out@.len() ==> #[trigger] out@[j] < 0x80,
            spec_camel(input@, true) == ascii_chars_of(out@) + spec_camel(
                ascii_chars_of(b@.skip(i as int)),
                cap,
            ),
            ascii_chars_of(b@) == input@,
        decreases n - i,
    {
        let ghost rest = ascii_chars_of(b@.skip(i as int));
        assert(rest[0] == b@[i as int] as char);
        assert(ascii_chars_of(b@.skip(i as int + 1)) =~= rest.drop_first());
        let c = b[i];
        if c == 0x2D {
            assert(rest[0] == '-');
            cap = true;
        } else {
            assert(rest[0] != '-') by {
                assert((0x2Du8) as char == '-');
            }
            let mapped = if cap && c >= 0x61 && c <= 0x7A {
                (c - 0x20) as u8
            } else {
                c
            };
            proof {
                if cap {
                    assert(mapped as char == spec_upper(rest[0])) by {
                        if 'a' <= rest[0] <= 'z' {
                            assert(0x61 <= b@[i as int] <= 0x7A);
                        } else {
                            assert(!(0x61 <= b@[i as int] <= 0x7A));
                        }
                    }
                } else {
                    assert(mapped as char == rest[0]);
                }
            }
            out.push(mapped);
            proof {
                assert(ascii_chars_of(out@) =~= ascii_chars_of(out@.drop_last()).push(
                    mapped as char,
                ));
                assert(forall|t: Seq<char>|
                    (ascii_chars_of(out@.drop_last()) + (seq![mapped as char] + t))
                        =~= (ascii_chars_of(out@) + t));
            }
            cap = false;
        }
        i = i + 1;
    }
    assert(b@.skip(n as int).len() == 0);
    assert(spec_camel(ascii_chars_of(b@.skip(n as int)), cap) =~= Seq::<char>::empty());
    assert(spec_camel(input@, true) =~= ascii_chars_of(out@));
    proof {
        lemma_ascii_bytes_decode(out@);
    }
    match bytes_to_string(out) {
        Some(stem) => stem.concat("Handler"),
        None => {
            proof {
                assert(false);
            }
            String::new()
        },
    }
}

/// The public URL a deployed function answers under.
pub fn generate_function_url(base_url: &str, user_uuid: &str, function_name: &str) -> (r: String)
    ensures
        r@ == base_url@ + "/invok/"@ + user_uuid@ + "/"@ + function_name@,
{
    base_url.to_owned().concat("/invok/").concat(user_uuid).concat("/").concat(function_name)
}

/// The pool identifier of a function: its name and the short hash of its
/// owner, joined by a hyphen.
pub fn make_function_key(function_name: &str, user_hash: &str) -> (r: String)
    ensures
        r@ == function_name@ + "-"@ + user_hash@,
{
    function_name.to_owned().concat("-").concat(user_hash)
}

/// The in-network address a dispatched request is forwarded to.
pub fn function_address(container_name: &str, container_port: u32) -> (r: String)
    ensures
        r@ == container_name@ + ":"@ + dec_chars(container_port as nat),
{
    container_name.to_owned().concat(":").concat(u64_to_string(container_port as u64).as_str())
}

} // verus!
