use vstd::prelude::*;
use vstd::utf8::{decode_utf8, encode_utf8, valid_utf8};
use crate::container::ContainerStatus;
use crate::persistence::{
    PersistedContainerInfo, PersistedContainerView, PersistedPoolState, PersistedPoolView,
    PersistenceMetadata, PersistenceMetadataView,
};
use crate::pool::MonitoringConfig;
use crate::text::{
    bytes_to_string, dec_bytes, dec_bytes_i64, esc_bytes, escape_into, expect_bytes, is_digit_byte,
    lemma_dec_bytes_shape, lemma_expect_roundtrip, lemma_parse_i64_roundtrip,
    lemma_parse_string_roundtrip, lemma_parse_u64_roundtrip, parse_i64, parse_string_body,
    parse_u64, render_i64, render_u64, spec_expect, spec_parse_i64,
    spec_parse_string_body, spec_parse_u64, string_bytes, QUOTE,
};

verus! {

/// Append the UTF-8 bytes of a literal to the output.
pub fn append_lit(out: &mut Vec<u8>, lit: &str)
    ensures
        final(out)@ == old(out)@ + encode_utf8(lit@),
{
    let mut b = string_bytes(lit);
    out.append(&mut b);
}

/// Check that the UTF-8 bytes of a literal stand at `pos`.
pub fn expect_lit(s: &Vec<u8>, pos: usize, lit: &str) -> (r: Option<usize>)
    requires
        pos <= s@.len(),
    ensures
        match spec_expect(s@.skip(pos as int), encode_utf8(lit@)) {
            Some(rem) => r == Some((s@.len() - rem.len()) as usize),
            None => r is None,
        },
        r is Some ==> pos <= r->0 <= s@.len() && s@.skip(r->0 as int) == s@.skip(pos as int).skip(
            encode_utf8(lit@).len() as int,
        ),
{
    let b = string_bytes(lit);
    let n = s.len();
    assert(n == s@.len());
    let r = expect_bytes(s, pos, b.as_slice());
    proof {
        if r is Some {
            let ll = encode_utf8(lit@).len() as int;
            let rem = spec_expect(s@.skip(pos as int), encode_utf8(lit@))->0;
            assert(rem == s@.skip(pos as int).skip(ll));
            assert(s@.skip(pos as int).skip(ll) =~= s@.skip(pos + ll));
            assert(rem.len() == s@.len() - pos - ll);
            assert(r->0 == s@.len() - rem.len());
            assert(r->0 == pos + ll);
            assert(s@.skip(r->0 as int) == s@.skip(pos + ll));
        }
    }
    r
}

/// The wire form of a container status.
pub open spec fn spec_render_status(st: ContainerStatus) -> Seq<u8> {
    match st {
        ContainerStatus::Healthy => encode_utf8("Healthy"@),
        ContainerStatus::Overloaded => encode_utf8("Overloaded"@),
        ContainerStatus::Idle => encode_utf8("Idle"@),
    }
}

/// Parse a container status: one of its three names.
pub open spec fn spec_parse_status(s: Seq<u8>) -> Option<(ContainerStatus, Seq<u8>)> {
    if spec_expect(s, encode_utf8("Healthy"@)) is Some {
        Some((ContainerStatus::Healthy, spec_expect(s, encode_utf8("Healthy"@))->0))
    } else if spec_expect(s, encode_utf8("Overloaded"@)) is Some {
        Some((ContainerStatus::Overloaded, spec_expect(s, encode_utf8("Overloaded"@))->0))
    } else if spec_expect(s, encode_utf8("Idle"@)) is Some {
        Some((ContainerStatus::Idle, spec_expect(s, encode_utf8("Idle"@))->0))
    } else {
        None
    }
}

/// The first bytes of the three status names are pairwise distinct ASCII
/// letters, so the names recognize themselves on the wire.
proof fn lemma_status_lit_bytes()
    ensures
        encode_utf8("Healthy"@).len() == 7 && encode_utf8("Healthy"@)[0] == 0x48,
        encode_utf8("Overloaded"@).len() == 10 && encode_utf8("Overloaded"@)[0] == 0x4F,
        encode_utf8("Idle"@).len() == 4 && encode_utf8("Idle"@)[0] == 0x49,
{
    reveal_strlit("Healthy");
    reveal_strlit("Overloaded");
    reveal_strlit("Idle");
    crate::text::lemma_ascii_seq("Healthy"@);
    crate::text::lemma_ascii_seq("Overloaded"@);
    crate::text::lemma_ascii_seq("Idle"@);
}

/// A rendered status followed by anything parses back to itself.
pub proof fn lemma_status_roundtrip(st: ContainerStatus, rest: Seq<u8>)
    ensures
        spec_parse_status(spec_render_status(st) + rest) == Some((st, rest)),
{
    lemma_status_lit_bytes();
    let s = spec_render_status(st) + rest;
    match st {
        ContainerStatus::Healthy => {
            lemma_expect_roundtrip(encode_utf8("Healthy"@), rest);
        },
        ContainerStatus::Overloaded => {
            lemma_expect_roundtrip(encode_utf8("Overloaded"@), rest);
            assert(s[0] == 0x4F);
            assert(spec_expect(s, encode_utf8("Healthy"@)) is None) by {
                if s.len() >= 7 && s.subrange(0, 7) == encode_utf8("Healthy"@) {
                    assert(s.subrange(0, 7)[0] == s[0]);
                }
            }
        },
        ContainerStatus::Idle => {
            lemma_expect_roundtrip(encode_utf8("Idle"@), rest);
            assert(s[0] == 0x49);
            assert(spec_expect(s, encode_utf8("Healthy"@)) is None) by {
                if s.len() >= 7 && s.subrange(0, 7) == encode_utf8("Healthy"@) {
                    assert(s.subrange(0, 7)[0] == s[0]);
                }
            }
            assert(spec_expect(s, encode_utf8("Overloaded"@)) is None) by {
                if s.len() >= 10 && s.subrange(0, 10) == encode_utf8("Overloaded"@) {
                    assert(s.subrange(0, 10)[0] == s[0]);
                }
            }
        },
    }
}

/// Append the wire form of a status.
pub fn render_status(out: &mut Vec<u8>, st: ContainerStatus)
    ensures
        final(out)@ == old(out)@ + spec_render_status(st),
{
    match st {
        ContainerStatus::Healthy => append_lit(out, "Healthy"),
        ContainerStatus::Overloaded => append_lit(out, "Overloaded"),
        ContainerStatus::Idle => append_lit(out, "Idle"),
    }
}

/// Parse a status name at `pos`.
pub fn parse_status(s: &Vec<u8>, pos: usize) -> (r: Option<(ContainerStatus, usize)>)
    requires
        pos <= s@.len(),
    ensures
        match spec_parse_status(s@.skip(pos as int)) {
            Some((st, rem)) => r == Some((st, (s@.len() - rem.len()) as usize)),
            None => r is None,
        },
        r is Some ==> pos <= (r->0).1 <= s@.len() && s@.skip((r->0).1 as int)
            == (spec_parse_status(s@.skip(pos as int))->0).1,
{
    match expect_lit(s, pos, "Healthy") {
        Some(end) => {
            return Some((ContainerStatus::Healthy, end));
        },
        None => {},
    }
    match expect_lit(s, pos, "Overloaded") {
        Some(end) => {
            return Some((ContainerStatus::Overloaded, end));
        },
        None => {},
    }
    match expect_lit(s, pos, "Idle") {
        Some(end) => {
            return Some((ContainerStatus::Idle, end));
        },
        None => {},
    }
    None
}

/// The wire form of an optional signed number: its digits, or `null`.
pub open spec fn spec_render_opt_i64(v: Option<i64>) -> Seq<u8> {
    match v {
        Some(n) => dec_bytes_i64(n as int),
        None => encode_utf8("null"@),
    }
}

/// Parse an optional signed number: `null`, or digits.
pub open spec fn spec_parse_opt_i64(s: Seq<u8>) -> Option<(Option<i64>, Seq<u8>)> {
    match spec_expect(s, encode_utf8("null"@)) {
        Some(rem) => Some((None, rem)),
        None => match spec_parse_i64(s) {
            Some((v, rem)) => Some((Some(v), rem)),
            None => None,
        },
    }
}

/// A rendered optional number, followed by anything that does not extend a
/// digit run, parses back to itself.
pub proof fn lemma_opt_i64_roundtrip(v: Option<i64>, rest: Seq<u8>)
    requires
        rest.len() == 0 || !is_digit_byte(rest[0]),
    ensures
        spec_parse_opt_i64(spec_render_opt_i64(v) + rest) == Some((v, rest)),
{
    reveal_strlit("null");
    crate::text::lemma_ascii_seq("null"@);
    assert(encode_utf8("null"@).len() == 4 && encode_utf8("null"@)[0] == 0x6E);
    match v {
        Some(n) => {
            lemma_parse_i64_roundtrip(n, rest);
            let s = dec_bytes_i64(n as int) + rest;
            lemma_dec_bytes_shape(crate::text::abs_int(n as int));
            assert(s[0] == dec_bytes_i64(n as int)[0]);
            assert(s[0] == crate::text::MINUS || is_digit_byte(s[0]));
            assert(spec_expect(s, encode_utf8("null"@)) is None) by {
                if s.len() >= 4 && s.subrange(0, 4) == encode_utf8("null"@) {
                    assert(s.subrange(0, 4)[0] == s[0]);
                }
            }
        },
        None => {
            lemma_expect_roundtrip(encode_utf8("null"@), rest);
        },
    }
}

/// Append the wire form of an optional signed number.
pub fn render_opt_i64(out: &mut Vec<u8>, v: Option<i64>)
    ensures
        final(out)@ == old(out)@ + spec_render_opt_i64(v),
{
    match v {
        Some(n) => render_i64(out, n),
        None => append_lit(out, "null"),
    }
}

/// Parse an optional signed number at `pos`.
pub fn parse_opt_i64(s: &Vec<u8>, pos: usize) -> (r: Option<(Option<i64>, usize)>)
    requires
        pos <= s@.len(),
    ensures
        match spec_parse_opt_i64(s@.skip(pos as int)) {
            Some((v, rem)) => r == Some((v, (s@.len() - rem.len()) as usize)),
            None => r is None,
        },
        r is Some ==> pos <= (r->0).1 <= s@.len() && s@.skip((r->0).1 as int)
            == (spec_parse_opt_i64(s@.skip(pos as int))->0).1,
{
    let n = s.len();
    assert(n == s@.len());
    match expect_lit(s, pos, "null") {
        Some(end) => {
            return Some((None, end));
        },
        None => {},
    }
    match parse_i64(s, pos) {
        Some((v, end)) => {
            proof {
                let sp = s@.skip(pos as int);
                crate::text::lemma_parse_i64_suffix(sp);
                let rem = (spec_parse_i64(sp)->0).1;
                assert(rem == sp.skip(sp.len() - rem.len()));
                assert(sp.skip(sp.len() - rem.len()) =~= s@.skip(s@.len() - rem.len()));
                assert(end == s@.len() - rem.len());
                assert(s@.skip(end as int) == rem);
            }
            Some((Some(v), end))
        },
        None => None,
    }
}

/// The wire form of one container record.
pub open spec fn spec_render_container(c: PersistedContainerView) -> Seq<u8> {
    spec_render_container_front(c) + spec_render_container_back(c)
}

/// The leading half of a record: id, name and port.
pub open spec fn spec_render_container_front(c: PersistedContainerView) -> Seq<u8> {
    encode_utf8("{\"id\":\""@) + esc_bytes(encode_utf8(c.id)) + seq![QUOTE] + encode_utf8(
        ",\"name\":\""@,
    ) + esc_bytes(encode_utf8(c.name)) + seq![QUOTE] + encode_utf8(",\"container_port\":"@)
        + dec_bytes(c.container_port as nat)
}

/// The trailing half of a record: status and the two timestamps.
pub open spec fn spec_render_container_back(c: PersistedContainerView) -> Seq<u8> {
    encode_utf8(",\"status\":\""@) + spec_render_status(c.status) + encode_utf8(
        "\",\"last_active_unix\":"@,
    ) + dec_bytes_i64(c.last_active_unix as int) + encode_utf8(",\"idle_since_unix\":"@)
        + spec_render_opt_i64(c.idle_since_unix) + encode_utf8("}"@)
}

/// Parse the leading half of a record: the decoded id and name, the port,
/// and the remainder.
pub open spec fn spec_parse_container_front(s: Seq<u8>) -> Option<
    ((Seq<char>, Seq<char>, u32), Seq<u8>),
> {
    match spec_expect(s, encode_utf8("{\"id\":\""@)) {
        None => None,
        Some(s1) => match spec_parse_string_body(s1) {
            None => None,
            Some((idb, s2)) => if !valid_utf8(idb) {
                None
            } else {
                match spec_expect(s2, encode_utf8(",\"name\":\""@)) {
                    None => None,
                    Some(s3) => match spec_parse_string_body(s3) {
                        None => None,
                        Some((nmb, s4)) => if !valid_utf8(nmb) {
                            None
                        } else {
                            match spec_expect(s4, encode_utf8(",\"container_port\":"@)) {
                                None => None,
                                Some(s5) => match spec_parse_u64(s5) {
                                    None => None,
                                    Some((port, s6)) => if port > u32::MAX as u64 {
                                        None
                                    } else {
                                        Some(
                                            ((decode_utf8(idb), decode_utf8(nmb), port as u32), s6),
                                        )
                                    },
                                },
                            }
                        },
                    },
                }
            },
        },
    }
}

/// Parse the trailing half of a record: status, timestamps, closing brace.
pub open spec fn spec_parse_container_back(s: Seq<u8>) -> Option<
    ((ContainerStatus, i64, Option<i64>), Seq<u8>),
> {
    match spec_expect(s, encode_utf8(",\"status\":\""@)) {
        None => None,
        Some(s7) => match spec_parse_status(s7) {
            None => None,
            Some((st, s8)) => match spec_expect(s8, encode_utf8("\",\"last_active_unix\":"@)) {
                None => None,
                Some(s9) => match spec_parse_i64(s9) {
                    None => None,
                    Some((la, s10)) => match spec_expect(s10, encode_utf8(",\"idle_since_unix\":"@)) {
                        None => None,
                        Some(s11) => match spec_parse_opt_i64(s11) {
                            None => None,
                            Some((idle, s12)) => match spec_expect(s12, encode_utf8("}"@)) {
                                None => None,
                                Some(s13) => Some(((st, la, idle), s13)),
                            },
                        },
                    },
                },
            },
        },
    }
}

/// Parse one container record.
pub open spec fn spec_parse_container(s: Seq<u8>) -> Option<(PersistedContainerView, Seq<u8>)> {
    match spec_parse_container_front(s) {
        None => None,
        Some(((id, name, port), s6)) => match spec_parse_container_back(s6) {
            None => None,
            Some(((st, la, idle), rem)) => Some(
                (
                    PersistedContainerView {
                        id: id,
                        name: name,
                        container_port: port,
                        status: st,
                        last_active_unix: la,
                        idle_since_unix: idle,
                    },
                    rem,
                ),
            ),
        },
    }
}

/// First bytes and lengths of the container literals, for the greedy-parse
/// boundaries of the round trip.
proof fn lemma_container_lit_bytes()
    ensures
        encode_utf8("{\"id\":\""@).len() == 7,
        encode_utf8(",\"container_port\":"@).len() >= 1 && encode_utf8(",\"container_port\":"@)[0]
            == 0x2C,
        encode_utf8(",\"status\":\""@).len() >= 1 && encode_utf8(",\"status\":\""@)[0] == 0x2C,
        encode_utf8("\",\"last_active_unix\":"@).len() >= 1 && encode_utf8(
            "\",\"last_active_unix\":"@,
        )[0] == QUOTE,
        encode_utf8(",\"idle_since_unix\":"@).len() >= 1 && encode_utf8(
            ",\"idle_since_unix\":"@,
        )[0] == 0x2C,
        encode_utf8("}"@).len() == 1 && encode_utf8("}"@)[0] == 0x7D,
{
    reveal_strlit("{\"id\":\"");
    reveal_strlit(",\"container_port\":");
    reveal_strlit(",\"status\":\"");
    reveal_strlit("\",\"last_active_unix\":");
    reveal_strlit(",\"idle_since_unix\":");
    reveal_strlit("}");
    crate::text::lemma_ascii_seq("{\"id\":\""@);
    crate::text::lemma_ascii_seq(",\"container_port\":"@);
    crate::text::lemma_ascii_seq(",\"status\":\""@);
    crate::text::lemma_ascii_seq("\",\"last_active_unix\":"@);
    crate::text::lemma_ascii_seq(",\"idle_since_unix\":"@);
    crate::text::lemma_ascii_seq("}"@);
}

/// A rendered leading half followed by anything parses back to itself.
proof fn lemma_container_front_roundtrip(c: PersistedContainerView, rest: Seq<u8>)
    requires
        rest.len() == 0 || !is_digit_byte(rest[0]),
    ensures
        spec_parse_container_front(spec_render_container_front(c) + rest) == Some(
            ((c.id, c.name, c.container_port), rest),
        ),
{
    lemma_container_lit_bytes();
    let l1 = encode_utf8("{\"id\":\""@);
    let l2 = encode_utf8(",\"name\":\""@);
    let l3 = encode_utf8(",\"container_port\":"@);
    let idb = encode_utf8(c.id);
    let nmb = encode_utf8(c.name);
    let s0 = spec_render_container_front(c) + rest;
    let s6 = rest;
    let s5 = dec_bytes(c.container_port as nat) + s6;
    let s4 = l3 + s5;
    let s3 = esc_bytes(nmb) + seq![QUOTE] + s4;
    let s2 = l2 + s3;
    let s1 = esc_bytes(idb) + seq![QUOTE] + s2;
    assert(s0 =~= l1 + s1);
    lemma_expect_roundtrip(l1, s1);
    assert(s1 =~= esc_bytes(idb) + seq![QUOTE] + s2);
    lemma_parse_string_roundtrip(idb, s2);
    vstd::utf8::encode_utf8_valid_utf8(c.id);
    vstd::utf8::encode_utf8_decode_utf8(c.id);
    assert(s2 =~= l2 + s3);
    lemma_expect_roundtrip(l2, s3);
    assert(s3 =~= esc_bytes(nmb) + seq![QUOTE] + s4);
    lemma_parse_string_roundtrip(nmb, s4);
    vstd::utf8::encode_utf8_valid_utf8(c.name);
    vstd::utf8::encode_utf8_decode_utf8(c.name);
    assert(s4 =~= l3 + s5);
    lemma_expect_roundtrip(l3, s5);
    assert(s5 =~= dec_bytes(c.container_port as nat) + s6);
    lemma_parse_u64_roundtrip(c.container_port as u64, s6);
}

/// A rendered trailing half followed by anything parses back to itself.
proof fn lemma_container_back_roundtrip(c: PersistedContainerView, rest: Seq<u8>)
    ensures
        spec_parse_container_back(spec_render_container_back(c) + rest) == Some(
            ((c.status, c.last_active_unix, c.idle_since_unix), rest),
        ),
{
    lemma_container_lit_bytes();
    let l4 = encode_utf8(",\"status\":\""@);
    let l5 = encode_utf8("\",\"last_active_unix\":"@);
    let l6 = encode_utf8(",\"idle_since_unix\":"@);
    let rb = encode_utf8("}"@);
    let s6 = spec_render_container_back(c) + rest;
    let s13 = rest;
    let s12 = rb + s13;
    let s11 = spec_render_opt_i64(c.idle_since_unix) + s12;
    let s10 = l6 + s11;
    let s9 = dec_bytes_i64(c.last_active_unix as int) + s10;
    let s8 = l5 + s9;
    let s7 = spec_render_status(c.status) + s8;
    assert(s6 =~= l4 + s7);
    lemma_expect_roundtrip(l4, s7);
    assert(s7 =~= spec_render_status(c.status) + s8);
    lemma_status_roundtrip(c.status, s8);
    assert(s8 =~= l5 + s9);
    lemma_expect_roundtrip(l5, s9);
    assert(s9 =~= dec_bytes_i64(c.last_active_unix as int) + s10);
    assert(s10[0] == 0x2C && !is_digit_byte(s10[0]));
    lemma_parse_i64_roundtrip(c.last_active_unix, s10);
    assert(s10 =~= l6 + s11);
    lemma_expect_roundtrip(l6, s11);
    assert(s11 =~= spec_render_opt_i64(c.idle_since_unix) + s12);
    assert(s12[0] == 0x7D && !is_digit_byte(s12[0]));
    lemma_opt_i64_roundtrip(c.idle_since_unix, s12);
    assert(s12 =~= rb + s13);
    lemma_expect_roundtrip(rb, s13);
}

/// A rendered container record followed by anything parses back to itself.
pub proof fn lemma_container_roundtrip(c: PersistedContainerView, rest: Seq<u8>)
    ensures
        spec_parse_container(spec_render_container(c) + rest) == Some((c, rest)),
{
    lemma_container_lit_bytes();
    let back = spec_render_container_back(c) + rest;
    assert(spec_render_container(c) + rest =~= spec_render_container_front(c) + back);
    assert(back[0] == 0x2C && !is_digit_byte(back[0]));
    lemma_container_front_roundtrip(c, back);
    lemma_container_back_roundtrip(c, rest);
}

/// Append the wire form of a container record.
#[verifier::rlimit(100)]
pub fn render_container(out: &mut Vec<u8>, c: &PersistedContainerInfo)
    ensures
        final(out)@ == old(out)@ + spec_render_container(c@),
{
    append_lit(out, "{\"id\":\"");
    let idb = string_bytes(c.id.as_str());
    escape_into(out, idb.as_slice());
    out.push(QUOTE);
    append_lit(out, ",\"name\":\"");
    let nmb = string_bytes(c.name.as_str());
    escape_into(out, nmb.as_slice());
    out.push(QUOTE);
    append_lit(out, ",\"container_port\":");
    render_u64(out, c.container_port as u64);
    append_lit(out, ",\"status\":\"");
    render_status(out, c.status);
    append_lit(out, "\",\"last_active_unix\":");
    render_i64(out, c.last_active_unix);
    append_lit(out, ",\"idle_since_unix\":");
    render_opt_i64(out, c.idle_since_unix);
    append_lit(out, "}");
    assert(final(out)@ =~= old(out)@ + spec_render_container(c@));
}

/// Parse one container record at `pos`.
#[verifier::rlimit(100)]
pub fn parse_container(s: &Vec<u8>, pos: usize) -> (r: Option<(PersistedContainerInfo, usize)>)
    requires
        pos <= s@.len(),
    ensures
        match spec_parse_container(s@.skip(pos as int)) {
            Some((cv, rem)) => {
                &&& r is Some
                &&& (r->0).0@ == cv
                &&& (r->0).1 == s@.len() - rem.len()
                &&& pos <= (r->0).1 <= s@.len()
                &&& s@.skip((r->0).1 as int) == rem
            },
            None => r is None,
        },
{
    let n = s.len();
    assert(n == s@.len());
    let ghost w = s@.skip(pos as int);
    let p1 = match expect_lit(s, pos, "{\"id\":\"") {
        Some(p) => p,
        None => {
            return None;
        },
    };
    assert(s@.skip(p1 as int) == spec_expect(w, encode_utf8("{\"id\":\""@))->0);
    let (id_bytes, p2) = match parse_string_body(s, p1) {
        Some(x) => x,
        None => {
            return None;
        },
    };
    proof {
        crate::text::lemma_parse_string_suffix(s@.skip(p1 as int));
        let rem = (spec_parse_string_body(s@.skip(p1 as int))->0).1;
        assert(rem == s@.skip(p1 as int).skip(s@.skip(p1 as int).len() - rem.len()));
        assert(s@.skip(p1 as int).skip(s@.skip(p1 as int).len() - rem.len()) =~= s@.skip(
            s@.len() - rem.len(),
        ));
        assert(s@.skip(p2 as int) == rem);
    }
    let id = match bytes_to_string(id_bytes) {
        Some(x) => x,
        None => {
            return None;
        },
    };
    let p3 = match expect_lit(s, p2, ",\"name\":\"") {
        Some(p) => p,
        None => {
            return None;
        },
    };
    let (name_bytes, p4) = match parse_string_body(s, p3) {
        Some(x) => x,
        None => {
            return None;
        },
    };
    proof {
        crate::text::lemma_parse_string_suffix(s@.skip(p3 as int));
        let rem = (spec_parse_string_body(s@.skip(p3 as int))->0).1;
        assert(rem == s@.skip(p3 as int).skip(s@.skip(p3 as int).len() - rem.len()));
        assert(s@.skip(p3 as int).skip(s@.skip(p3 as int).len() - rem.len()) =~= s@.skip(
            s@.len() - rem.len(),
        ));
        assert(s@.skip(p4 as int) == rem);
    }
    let name = match bytes_to_string(name_bytes) {
        Some(x) => x,
        None => {
            return None;
        },
    };
    let p5 = match expect_lit(s, p4, ",\"container_port\":") {
        Some(p) => p,
        None => {
            return None;
        },
    };
    let (port_u64, p6) = match parse_u64(s, p5) {
        Some(x) => x,
        None => {
            return None;
        },
    };
    proof {
        crate::text::lemma_parse_u64_suffix(s@.skip(p5 as int));
        let rem = (spec_parse_u64(s@.skip(p5 as int))->0).1;
        assert(rem == s@.skip(p5 as int).skip(s@.skip(p5 as int).len() - rem.len()));
        assert(s@.skip(p5 as int).skip(s@.skip(p5 as int).len() - rem.len()) =~= s@.skip(
            s@.len() - rem.len(),
        ));
        assert(s@.skip(p6 as int) == rem);
    }
    if port_u64 > u32::MAX as u64 {
        return None;
    }
    let p7 = match expect_lit(s, p6, ",\"status\":\"") {
        Some(p) => p,
        None => {
            return None;
        },
    };
    let (status, p8) = match parse_status(s, p7) {
        Some(x) => x,
        None => {
            return None;
        },
    };
    let p9 = match expect_lit(s, p8, "\",\"last_active_unix\":") {
        Some(p) => p,
        None => {
            return None;
        },
    };
    let (last_active_unix, p10) = match parse_i64(s, p9) {
        Some(x) => x,
        None => {
            return None;
        },
    };
    proof {
        crate::text::lemma_parse_i64_suffix(s@.skip(p9 as int));
        let rem = (spec_parse_i64(s@.skip(p9 as int))->0).1;
        assert(rem == s@.skip(p9 as int).skip(s@.skip(p9 as int).len() - rem.len()));
        assert(s@.skip(p9 as int).skip(s@.skip(p9 as int).len() - rem.len()) =~= s@.skip(
            s@.len() - rem.len(),
        ));
        assert(s@.skip(p10 as int) == rem);
    }
    let p11 = match expect_lit(s, p10, ",\"idle_since_unix\":") {
        Some(p) => p,
        None => {
            return None;
        },
    };
    let (idle_since_unix, p12) = match parse_opt_i64(s, p11) {
        Some(x) => x,
        None => {
            return None;
        },
    };
    let p13 = match expect_lit(s, p12, "}") {
        Some(p) => p,
        None => {
            return None;
        },
    };
    Some(
        (
            PersistedContainerInfo {
                id,
                name,
                container_port: port_u64 as u32,
                status,
                last_active_unix,
                idle_since_unix,
            },
            p13,
        ),
    )
}

/// Views of a sequence of persisted records.
pub open spec fn pci_views(v: Seq<PersistedContainerInfo>) -> Seq<PersistedContainerView> {
    Seq::new(v.len(), |i: int| v[i]@)
}

/// The wire form of a record list without its brackets: records joined by
/// commas.
pub open spec fn spec_render_list_body(cs: Seq<PersistedContainerView>) -> Seq<u8>
    decreases cs.len(),
{
    if cs.len() == 0 {
        Seq::empty()
    } else if cs.len() == 1 {
        spec_render_container(cs[0])
    } else {
        spec_render_list_body(cs.drop_last()) + encode_utf8(","@) + spec_render_container(
            cs.last(),
        )
    }
}

/// The wire form of a record list.
pub open spec fn spec_render_containers(cs: Seq<PersistedContainerView>) -> Seq<u8> {
    encode_utf8("["@) + spec_render_list_body(cs) + encode_utf8("]"@)
}

/// Parse one or more records joined by commas, up to and including the
/// closing bracket.
pub open spec fn spec_parse_items(s: Seq<u8>) -> Option<(Seq<PersistedContainerView>, Seq<u8>)>
    decreases s.len(),
{
    match spec_parse_container(s) {
        None => None,
        Some((c, rem)) => if rem.len() >= s.len() {
            None
        } else {
            match spec_expect(rem, encode_utf8("]"@)) {
                Some(rem2) => Some((seq![c], rem2)),
                None => match spec_expect(rem, encode_utf8(","@)) {
                    None => None,
                    Some(s2) => match spec_parse_items(s2) {
                        None => None,
                        Some((tail, rem3)) => Some((seq![c] + tail, rem3)),
                    },
                },
            }
        },
    }
}

/// Parse a record list, brackets included.
pub open spec fn spec_parse_containers(s: Seq<u8>) -> Option<
    (Seq<PersistedContainerView>, Seq<u8>),
> {
    match spec_expect(s, encode_utf8("["@)) {
        None => None,
        Some(s1) => match spec_expect(s1, encode_utf8("]"@)) {
            Some(rem) => Some((Seq::empty(), rem)),
            None => spec_parse_items(s1),
        },
    }
}

proof fn lemma_list_lit_bytes()
    ensures
        encode_utf8("["@).len() == 1 && encode_utf8("["@)[0] == 0x5B,
        encode_utf8("]"@).len() == 1 && encode_utf8("]"@)[0] == 0x5D,
        encode_utf8(","@).len() == 1 && encode_utf8(","@)[0] == 0x2C,
{
    reveal_strlit("[");
    reveal_strlit("]");
    reveal_strlit(",");
    crate::text::lemma_ascii_seq("["@);
    crate::text::lemma_ascii_seq("]"@);
    crate::text::lemma_ascii_seq(","@);
}

/// A rendered record is at least as long as its opening literal.
proof fn lemma_render_container_min_len(c: PersistedContainerView)
    ensures
        spec_render_container(c).len() >= 7,
        spec_render_container(c).len() >= 1,
{
    lemma_container_lit_bytes();
}

/// A rendered record never starts with a closing bracket or a comma.
proof fn lemma_render_container_first_byte(c: PersistedContainerView)
    ensures
        spec_render_container(c)[0] == 0x7B,
{
    lemma_container_lit_bytes();
    reveal_strlit("{\"id\":\"");
    crate::text::lemma_ascii_seq("{\"id\":\""@);
    assert(spec_render_container(c)[0] == encode_utf8("{\"id\":\""@)[0]);
    assert("{\"id\":\""@[0] == '{');
}

/// A non-empty list body decomposes from the front: its first record, then
/// a comma and the rest.
proof fn lemma_list_body_front(cs: Seq<PersistedContainerView>)
    requires
        cs.len() >= 1,
    ensures
        cs.len() == 1 ==> spec_render_list_body(cs) == spec_render_container(cs[0]),
        cs.len() > 1 ==> spec_render_list_body(cs) == spec_render_container(cs[0]) + encode_utf8(
            ","@,
        ) + spec_render_list_body(cs.drop_first()),
    decreases cs.len(),
{
    if cs.len() == 1 {
    } else if cs.len() == 2 {
        assert(cs.drop_last()[0] == cs[0]);
        assert(cs.drop_last().len() == 1);
        assert(spec_render_list_body(cs.drop_last()) == spec_render_container(cs[0]));
        assert(cs.drop_first().len() == 1);
        assert(cs.drop_first()[0] == cs.last());
        assert(spec_render_list_body(cs.drop_first()) == spec_render_container(cs.last()));
    } else {
        let front = cs.drop_last();
        lemma_list_body_front(front);
        assert(front[0] == cs[0]);
        assert(front.drop_first() =~= cs.drop_first().drop_last());
        assert(cs.drop_first().len() > 1);
        assert(cs.drop_first().last() == cs.last());
        assert(spec_render_list_body(cs.drop_first()) == spec_render_list_body(
            cs.drop_first().drop_last(),
        ) + encode_utf8(","@) + spec_render_container(cs.last()));
        assert(spec_render_list_body(cs) == (spec_render_container(cs[0]) + encode_utf8(","@)
            + spec_render_list_body(front.drop_first())) + encode_utf8(","@)
            + spec_render_container(cs.last()));
        assert((spec_render_container(cs[0]) + encode_utf8(","@) + spec_render_list_body(
            front.drop_first(),
        )) + encode_utf8(","@) + spec_render_container(cs.last()) =~= spec_render_container(cs[0])
            + encode_utf8(","@) + (spec_render_list_body(front.drop_first()) + encode_utf8(","@)
            + spec_render_container(cs.last())));
    }
}

/// A rendered non-empty list body, closed by a bracket, parses back to its
/// records.
#[verifier::rlimit(100)]
#[verifier::spinoff_prover]
proof fn lemma_items_roundtrip(cs: Seq<PersistedContainerView>, rest: Seq<u8>)
    requires
        cs.len() >= 1,
    ensures
        spec_parse_items(spec_render_list_body(cs) + encode_utf8("]"@) + rest) == Some((cs, rest)),
    decreases cs.len(),
{
    lemma_list_lit_bytes();
    lemma_list_body_front(cs);
    lemma_render_container_min_len(cs[0]);
    let s = spec_render_list_body(cs) + encode_utf8("]"@) + rest;
    if cs.len() == 1 {
        let rem = encode_utf8("]"@) + rest;
        assert(s =~= spec_render_container(cs[0]) + rem);
        lemma_container_roundtrip(cs[0], rem);
        assert(rem.len() < s.len());
        lemma_expect_roundtrip(encode_utf8("]"@), rest);
        assert(seq![cs[0]] =~= cs);
    } else {
        let tail = cs.drop_first();
        let rem = encode_utf8(","@) + spec_render_list_body(tail) + encode_utf8("]"@) + rest;
        assert(s =~= spec_render_container(cs[0]) + rem);
        lemma_container_roundtrip(cs[0], rem);
        assert(rem.len() < s.len());
        assert(rem[0] == 0x2C);
        assert(spec_expect(rem, encode_utf8("]"@)) is None) by {
            if rem.len() >= 1 && rem.subrange(0, 1) == encode_utf8("]"@) {
                assert(rem.subrange(0, 1)[0] == rem[0]);
            }
        }
        let s2 = spec_render_list_body(tail) + encode_utf8("]"@) + rest;
        assert(rem =~= encode_utf8(","@) + s2);
        lemma_expect_roundtrip(encode_utf8(","@), s2);
        lemma_items_roundtrip(tail, rest);
        assert(seq![cs[0]] + tail =~= cs);
    }
}

/// A rendered record list followed by anything parses back to itself.
pub proof fn lemma_containers_roundtrip(cs: Seq<PersistedContainerView>, rest: Seq<u8>)
    ensures
        spec_parse_containers(spec_render_containers(cs) + rest) == Some((cs, rest)),
{
    lemma_list_lit_bytes();
    let s = spec_render_containers(cs) + rest;
    let s1 = spec_render_list_body(cs) + encode_utf8("]"@) + rest;
    assert(s =~= encode_utf8("["@) + s1);
    lemma_expect_roundtrip(encode_utf8("["@), s1);
    if cs.len() == 0 {
        assert(s1 =~= encode_utf8("]"@) + rest);
        lemma_expect_roundtrip(encode_utf8("]"@), rest);
        assert(Seq::<PersistedContainerView>::empty() =~= cs);
    } else {
        lemma_items_roundtrip(cs, rest);
        lemma_render_container_min_len(cs[0]);
        lemma_list_body_front(cs);
        lemma_render_container_first_byte(cs[0]);
        assert(s1[0] == spec_render_container(cs[0])[0]);
        assert(s1[0] == 0x7B);
        assert(spec_expect(s1, encode_utf8("]"@)) is None) by {
            if s1.len() >= 1 && s1.subrange(0, 1) == encode_utf8("]"@) {
                assert(s1.subrange(0, 1)[0] == s1[0]);
            }
        }
    }
}

/// Append the wire form of a record list.
pub fn render_containers(out: &mut Vec<u8>, cs: &Vec<PersistedContainerInfo>)
    ensures
        final(out)@ == old(out)@ + spec_render_containers(pci_views(cs@)),
{
    let ghost base = old(out)@;
    append_lit(out, "[");
    let n = cs.len();
    let mut i: usize = 0;
    assert(pci_views(cs@).take(0) =~= Seq::<PersistedContainerView>::empty());
    assert(out@ =~= base + encode_utf8("["@) + spec_render_list_body(pci_views(cs@).take(0)));
    while i < n
        invariant
            0 <= i <= n == cs@.len(),
            out@ == base + encode_utf8("["@) + spec_render_list_body(pci_views(cs@).take(i as int)),
        decreases n - i,
    {
        let ghost views = pci_views(cs@);
        assert(views.take(i as int + 1).drop_last() =~= views.take(i as int));
        assert(views.take(i as int + 1).last() == views[i as int]);
        if i > 0 {
            append_lit(out, ",");
        }
        let c = &cs[i];
        assert(c@ == views[i as int]);
        render_container(out, c);
        proof {
            if i == 0 {
                assert(views.take(1).len() == 1);
                assert(views.take(1)[0] == views[0]);
                assert(spec_render_list_body(views.take(1)) == spec_render_container(views[0]));
                assert(out@ =~= base + encode_utf8("["@) + spec_render_list_body(
                    views.take(i as int + 1),
                ));
            } else {
                assert(views.take(i as int + 1).len() > 1);
                assert(spec_render_list_body(views.take(i as int + 1)) == spec_render_list_body(
                    views.take(i as int),
                ) + encode_utf8(","@) + spec_render_container(views[i as int]));
                assert(out@ =~= base + encode_utf8("["@) + spec_render_list_body(
                    views.take(i as int + 1),
                ));
            }
        }
        i = i + 1;
    }
    assert(pci_views(cs@).take(n as int) =~= pci_views(cs@));
    append_lit(out, "]");
    assert(final(out)@ =~= base + spec_render_containers(pci_views(cs@)));
}

/// Every successful record parse consumes at least one byte.
#[verifier::rlimit(100)]
#[verifier::spinoff_prover]
proof fn lemma_parse_container_shrinks(s: Seq<u8>)
    ensures
        spec_parse_container(s) is Some ==> (spec_parse_container(s)->0).1.len() < s.len(),
{
    if spec_parse_container(s) is Some {
        lemma_container_lit_bytes();
        let l1 = encode_utf8("{\"id\":\""@);
        let s1 = spec_expect(s, l1)->0;
        assert(s1 == s.skip(l1.len() as int));
        assert(s1.len() == s.len() - 7);
        crate::text::lemma_parse_string_suffix(s1);
        let (idb, s2) = spec_parse_string_body(s1)->0;
        let l2 = encode_utf8(",\"name\":\""@);
        let s3 = spec_expect(s2, l2)->0;
        crate::text::lemma_parse_string_suffix(s3);
        let (nmb, s4) = spec_parse_string_body(s3)->0;
        let l3 = encode_utf8(",\"container_port\":"@);
        let s5 = spec_expect(s4, l3)->0;
        crate::text::lemma_parse_u64_suffix(s5);
        let (port, s6) = spec_parse_u64(s5)->0;
        let l4 = encode_utf8(",\"status\":\""@);
        let s7 = spec_expect(s6, l4)->0;
        let (st, s8) = spec_parse_status(s7)->0;
        assert(s8.len() <= s7.len());
        let l5 = encode_utf8("\",\"last_active_unix\":"@);
        let s9 = spec_expect(s8, l5)->0;
        crate::text::lemma_parse_i64_suffix(s9);
        let (la, s10) = spec_parse_i64(s9)->0;
        let l6 = encode_utf8(",\"idle_since_unix\":"@);
        let s11 = spec_expect(s10, l6)->0;
        let (idle, s12) = spec_parse_opt_i64(s11)->0;
        assert(s12.len() <= s11.len()) by {
            if spec_expect(s11, encode_utf8("null"@)) is Some {
            } else {
                crate::text::lemma_parse_i64_suffix(s11);
            }
        }
        let rb = encode_utf8("}"@);
        let s13 = spec_expect(s12, rb)->0;
        assert(s13.len() <= s12.len());
        assert(s13.len() < s.len());
    }
}

/// Parse a record list at `pos`, brackets included.
#[verifier::rlimit(100)]
#[verifier::loop_isolation(false)]
pub fn parse_containers(s: &Vec<u8>, pos: usize) -> (r: Option<
    (Vec<PersistedContainerInfo>, usize),
>)
    requires
        pos <= s@.len(),
    ensures
        match spec_parse_containers(s@.skip(pos as int)) {
            Some((cs, rem)) => {
                &&& r is Some
                &&& pci_views((r->0).0@) == cs
                &&& (r->0).1 == s@.len() - rem.len()
                &&& pos <= (r->0).1 <= s@.len()
                &&& s@.skip((r->0).1 as int) == rem
            },
            None => r is None,
        },
{
    let n = s.len();
    assert(n == s@.len());
    let ghost w = s@.skip(pos as int);
    let p1 = match expect_lit(s, pos, "[") {
        Some(p) => p,
        None => {
            return None;
        },
    };
    match expect_lit(s, p1, "]") {
        Some(p2) => {
            let out: Vec<PersistedContainerInfo> = Vec::new();
            assert(pci_views(out@) =~= Seq::<PersistedContainerView>::empty());
            return Some((out, p2));
        },
        None => {},
    }
    let mut out: Vec<PersistedContainerInfo> = Vec::new();
    let mut cur: usize = p1;
    loop
        invariant
            pos <= p1 <= cur <= s@.len(),
            spec_expect(w, encode_utf8("["@)) is Some,
            s@.skip(p1 as int) == spec_expect(w, encode_utf8("["@))->0,
            spec_expect(s@.skip(p1 as int), encode_utf8("]"@)) is None,
            spec_parse_items(s@.skip(p1 as int)) == (match spec_parse_items(s@.skip(cur as int)) {
                Some((tail, rem)) => Some::<(Seq<PersistedContainerView>, Seq<u8>)>(
                    (pci_views(out@) + tail, rem),
                ),
                None => None::<(Seq<PersistedContainerView>, Seq<u8>)>,
            }),
        decreases s@.len() - cur,
    {
        let ghost sc = s@.skip(cur as int);
        let (c, p_after) = match parse_container(s, cur) {
            Some(x) => x,
            None => {
                return None;
            },
        };
        proof {
            lemma_parse_container_shrinks(sc);
            assert((spec_parse_container(sc)->0).1.len() < sc.len());
        }
        assert(cur < p_after);
        let ghost c_spec = (spec_parse_container(sc)->0).0;
        let ghost rem_spec = (spec_parse_container(sc)->0).1;
        assert(s@.skip(p_after as int) == rem_spec);
        out.push(c);
        proof {
            assert(forall|t: Seq<PersistedContainerView>| pci_views(out@.drop_last()) + (seq![
                c_spec,
            ] + t) =~= pci_views(out@) + t);
            assert(forall|t: Seq<PersistedContainerView>| #![all_triggers] (pci_views(
                out@.drop_last(),
            ) + seq![c_spec]) + t =~= pci_views(out@) + t);
            assert(pci_views(out@.drop_last()).push(c_spec) =~= pci_views(out@));
        }
        match expect_lit(s, p_after, "]") {
            Some(p_end) => {
                assert(spec_expect(rem_spec, encode_utf8("]"@)) is Some);
                let ghost rem2 = spec_expect(rem_spec, encode_utf8("]"@))->0;
                proof {
                    assert(spec_parse_items(sc) == Some((seq![c_spec], rem2)));
                    assert(pci_views(out@.drop_last()) + seq![c_spec] =~= pci_views(out@));
                }
                return Some((out, p_end));
            },
            None => {},
        }
        let p_comma = match expect_lit(s, p_after, ",") {
            Some(p) => p,
            None => {
                return None;
            },
        };
        proof {
            let s2 = spec_expect(rem_spec, encode_utf8(","@))->0;
            assert(s@.skip(p_comma as int) == s2);
            assert(s2.len() < sc.len());
        }
        cur = p_comma;
    }
}

/// The wire form of the monitoring thresholds.
pub open spec fn spec_render_config(c: MonitoringConfig) -> Seq<u8> {
    encode_utf8("{\"cpu_overload_threshold\":"@) + dec_bytes(c.cpu_overload_threshold as nat)
        + encode_utf8(",\"memory_overload_threshold\":"@) + dec_bytes(
        c.memory_overload_threshold as nat,
    ) + encode_utf8(",\"cooldown_cpu_threshold\":"@) + dec_bytes(c.cooldown_cpu_threshold as nat)
        + encode_utf8(",\"cooldown_duration_ms\":"@) + dec_bytes(c.cooldown_duration_ms as nat)
        + encode_utf8(",\"poll_interval_ms\":"@) + dec_bytes(c.poll_interval_ms as nat)
        + encode_utf8("}"@)
}

/// Parse the monitoring thresholds.
pub open spec fn spec_parse_config(s: Seq<u8>) -> Option<(MonitoringConfig, Seq<u8>)> {
    match spec_expect(s, encode_utf8("{\"cpu_overload_threshold\":"@)) {
        None => None,
        Some(s1) => match spec_parse_u64(s1) {
            None => None,
            Some((cpu, s2)) => match spec_expect(s2, encode_utf8(",\"memory_overload_threshold\":"@)) {
                None => None,
                Some(s3) => match spec_parse_u64(s3) {
                    None => None,
                    Some((mem, s4)) => match spec_expect(
                        s4,
                        encode_utf8(",\"cooldown_cpu_threshold\":"@),
                    ) {
                        None => None,
                        Some(s5) => match spec_parse_u64(s5) {
                            None => None,
                            Some((cool, s6)) => match spec_expect(
                                s6,
                                encode_utf8(",\"cooldown_duration_ms\":"@),
                            ) {
                                None => None,
                                Some(s7) => match spec_parse_u64(s7) {
                                    None => None,
                                    Some((cd, s8)) => match spec_expect(
                                        s8,
                                        encode_utf8(",\"poll_interval_ms\":"@),
                                    ) {
                                        None => None,
                                        Some(s9) => match spec_parse_u64(s9) {
                                            None => None,
                                            Some((pi, s10)) => match spec_expect(
                                                s10,
                                                encode_utf8("}"@),
                                            ) {
                                                None => None,
                                                Some(s11) => Some(
                                                    (
                                                        MonitoringConfig {
                                                            cpu_overload_threshold: cpu,
                                                            memory_overload_threshold: mem,
                                                            cooldown_cpu_threshold: cool,
                                                            cooldown_duration_ms: cd,
                                                            poll_interval_ms: pi,
                                                        },
                                                        s11,
                                                    ),
                                                ),
                                            },
                                        },
                                    },
                                },
                            },
                        },
                    },
                },
            },
        },
    }
}

proof fn lemma_config_lit_bytes()
    ensures
        encode_utf8(",\"memory_overload_threshold\":"@).len() >= 1 && encode_utf8(
            ",\"memory_overload_threshold\":"@,
        )[0] == 0x2C,
        encode_utf8(",\"cooldown_cpu_threshold\":"@).len() >= 1 && encode_utf8(
            ",\"cooldown_cpu_threshold\":"@,
        )[0] == 0x2C,
        encode_utf8(",\"cooldown_duration_ms\":"@).len() >= 1 && encode_utf8(
            ",\"cooldown_duration_ms\":"@,
        )[0] == 0x2C,
        encode_utf8(",\"poll_interval_ms\":"@).len() >= 1 && encode_utf8(
            ",\"poll_interval_ms\":"@,
        )[0] == 0x2C,
        encode_utf8("}"@).len() == 1 && encode_utf8("}"@)[0] == 0x7D,
{
    reveal_strlit(",\"memory_overload_threshold\":");
    reveal_strlit(",\"cooldown_cpu_threshold\":");
    reveal_strlit(",\"cooldown_duration_ms\":");
    reveal_strlit(",\"poll_interval_ms\":");
    reveal_strlit("}");
    crate::text::lemma_ascii_seq(",\"memory_overload_threshold\":"@);
    crate::text::lemma_ascii_seq(",\"cooldown_cpu_threshold\":"@);
    crate::text::lemma_ascii_seq(",\"cooldown_duration_ms\":"@);
    crate::text::lemma_ascii_seq(",\"poll_interval_ms\":"@);
    crate::text::lemma_ascii_seq("}"@);
}

/// A rendered configuration followed by anything parses back to itself.
#[verifier::rlimit(100)]
#[verifier::spinoff_prover]
pub proof fn lemma_config_roundtrip(c: MonitoringConfig, rest: Seq<u8>)
    ensures
        spec_parse_config(spec_render_config(c) + rest) == Some((c, rest)),
{
    lemma_config_lit_bytes();
    let l1 = encode_utf8("{\"cpu_overload_threshold\":"@);
    let l2 = encode_utf8(",\"memory_overload_threshold\":"@);
    let l3 = encode_utf8(",\"cooldown_cpu_threshold\":"@);
    let l4 = encode_utf8(",\"cooldown_duration_ms\":"@);
    let l5 = encode_utf8(",\"poll_interval_ms\":"@);
    let rb = encode_utf8("}"@);
    let s11 = rest;
    let s10 = rb + s11;
    let s9 = dec_bytes(c.poll_interval_ms as nat) + s10;
    let s8 = l5 + s9;
    let s7 = dec_bytes(c.cooldown_duration_ms as nat) + s8;
    let s6 = l4 + s7;
    let s5 = dec_bytes(c.cooldown_cpu_threshold as nat) + s6;
    let s4 = l3 + s5;
    let s3 = dec_bytes(c.memory_overload_threshold as nat) + s4;
    let s2 = l2 + s3;
    let s1 = dec_bytes(c.cpu_overload_threshold as nat) + s2;
    let s0 = spec_render_config(c) + rest;
    assert(s0 =~= l1 + s1);
    lemma_expect_roundtrip(l1, s1);
    assert(s1 =~= dec_bytes(c.cpu_overload_threshold as nat) + s2);
    assert(s2[0] == 0x2C && !is_digit_byte(s2[0]));
    lemma_parse_u64_roundtrip(c.cpu_overload_threshold, s2);
    assert(s2 =~= l2 + s3);
    lemma_expect_roundtrip(l2, s3);
    assert(s3 =~= dec_bytes(c.memory_overload_threshold as nat) + s4);
    assert(s4[0] == 0x2C && !is_digit_byte(s4[0]));
    lemma_parse_u64_roundtrip(c.memory_overload_threshold, s4);
    assert(s4 =~= l3 + s5);
    lemma_expect_roundtrip(l3, s5);
    assert(s5 =~= dec_bytes(c.cooldown_cpu_threshold as nat) + s6);
    assert(s6[0] == 0x2C && !is_digit_byte(s6[0]));
    lemma_parse_u64_roundtrip(c.cooldown_cpu_threshold, s6);
    assert(s6 =~= l4 + s7);
    lemma_expect_roundtrip(l4, s7);
    assert(s7 =~= dec_bytes(c.cooldown_duration_ms as nat) + s8);
    assert(s8[0] == 0x2C && !is_digit_byte(s8[0]));
    lemma_parse_u64_roundtrip(c.cooldown_duration_ms, s8);
    assert(s8 =~= l5 + s9);
    lemma_expect_roundtrip(l5, s9);
    assert(s9 =~= dec_bytes(c.poll_interval_ms as nat) + s10);
    assert(s10[0] == 0x7D && !is_digit_byte(s10[0]));
    lemma_parse_u64_roundtrip(c.poll_interval_ms, s10);
    assert(s10 =~= rb + s11);
    lemma_expect_roundtrip(rb, s11);
}

/// Append the wire form of the monitoring thresholds.
#[verifier::rlimit(100)]
#[verifier::spinoff_prover]
pub fn render_config(out: &mut Vec<u8>, c: &MonitoringConfig)
    ensures
        final(out)@ == old(out)@ + spec_render_config(*c),
{
    append_lit(out, "{\"cpu_overload_threshold\":");
    render_u64(out, c.cpu_overload_threshold);
    append_lit(out, ",\"memory_overload_threshold\":");
    render_u64(out, c.memory_overload_threshold);
    append_lit(out, ",\"cooldown_cpu_threshold\":");
    render_u64(out, c.cooldown_cpu_threshold);
    append_lit(out, ",\"cooldown_duration_ms\":");
    render_u64(out, c.cooldown_duration_ms);
    append_lit(out, ",\"poll_interval_ms\":");
    render_u64(out, c.poll_interval_ms);
    append_lit(out, "}");
    assert(final(out)@ =~= old(out)@ + spec_render_config(*c));
}

/// Parse the monitoring thresholds at `pos`.
#[verifier::rlimit(100)]
pub fn parse_config(s: &Vec<u8>, pos: usize) -> (r: Option<(MonitoringConfig, usize)>)
    requires
        pos <= s@.len(),
    ensures
        match spec_parse_config(s@.skip(pos as int)) {
            Some((c, rem)) => {
                &&& r is Some
                &&& (r->0).0 == c
                &&& (r->0).1 == s@.len() - rem.len()
                &&& pos <= (r->0).1 <= s@.len()
                &&& s@.skip((r->0).1 as int) == rem
            },
            None => r is None,
        },
{
    let n = s.len();
    assert(n == s@.len());
    let p1 = match expect_lit(s, pos, "{\"cpu_overload_threshold\":") {
        Some(p) => p,
        None => {
            return None;
        },
    };
    let (cpu, p2) = match parse_u64(s, p1) {
        Some(x) => x,
        None => {
            return None;
        },
    };
    proof {
        crate::text::lemma_parse_u64_suffix(s@.skip(p1 as int));
        let rem = (spec_parse_u64(s@.skip(p1 as int))->0).1;
        assert(rem == s@.skip(p1 as int).skip(s@.skip(p1 as int).len() - rem.len()));
        assert(s@.skip(p1 as int).skip(s@.skip(p1 as int).len() - rem.len()) =~= s@.skip(
            s@.len() - rem.len(),
        ));
        assert(s@.skip(p2 as int) == rem);
    }
    let p3 = match expect_lit(s, p2, ",\"memory_overload_threshold\":") {
        Some(p) => p,
        None => {
            return None;
        },
    };
    let (mem, p4) = match parse_u64(s, p3) {
        Some(x) => x,
        None => {
            return None;
        },
    };
    proof {
        crate::text::lemma_parse_u64_suffix(s@.skip(p3 as int));
        let rem = (spec_parse_u64(s@.skip(p3 as int))->0).1;
        assert(rem == s@.skip(p3 as int).skip(s@.skip(p3 as int).len() - rem.len()));
        assert(s@.skip(p3 as int).skip(s@.skip(p3 as int).len() - rem.len()) =~= s@.skip(
            s@.len() - rem.len(),
        ));
        assert(s@.skip(p4 as int) == rem);
    }
    let p5 = match expect_lit(s, p4, ",\"cooldown_cpu_threshold\":") {
        Some(p) => p,
        None => {
            return None;
        },
    };
    let (cool, p6) = match parse_u64(s, p5) {
        Some(x) => x,
        None => {
            return None;
        },
    };
    proof {
        crate::text::lemma_parse_u64_suffix(s@.skip(p5 as int));
        let rem = (spec_parse_u64(s@.skip(p5 as int))->0).1;
        assert(rem == s@.skip(p5 as int).skip(s@.skip(p5 as int).len() - rem.len()));
        assert(s@.skip(p5 as int).skip(s@.skip(p5 as int).len() - rem.len()) =~= s@.skip(
            s@.len() - rem.len(),
        ));
        assert(s@.skip(p6 as int) == rem);
    }
    let p7 = match expect_lit(s, p6, ",\"cooldown_duration_ms\":") {
        Some(p) => p,
        None => {
            return None;
        },
    };
    let (cd, p8) = match parse_u64(s, p7) {
        Some(x) => x,
        None => {
            return None;
        },
    };
    proof {
        crate::text::lemma_parse_u64_suffix(s@.skip(p7 as int));
        let rem = (spec_parse_u64(s@.skip(p7 as int))->0).1;
        assert(rem == s@.skip(p7 as int).skip(s@.skip(p7 as int).len() - rem.len()));
        assert(s@.skip(p7 as int).skip(s@.skip(p7 as int).len() - rem.len()) =~= s@.skip(
            s@.len() - rem.len(),
        ));
        assert(s@.skip(p8 as int) == rem);
    }
    let p9 = match expect_lit(s, p8, ",\"poll_interval_ms\":") {
        Some(p) => p,
        None => {
            return None;
        },
    };
    let (pi, p10) = match parse_u64(s, p9) {
        Some(x) => x,
        None => {
            return None;
        },
    };
    proof {
        crate::text::lemma_parse_u64_suffix(s@.skip(p9 as int));
        let rem = (spec_parse_u64(s@.skip(p9 as int))->0).1;
        assert(rem == s@.skip(p9 as int).skip(s@.skip(p9 as int).len() - rem.len()));
        assert(s@.skip(p9 as int).skip(s@.skip(p9 as int).len() - rem.len()) =~= s@.skip(
            s@.len() - rem.len(),
        ));
        assert(s@.skip(p10 as int) == rem);
    }
    let p11 = match expect_lit(s, p10, "}") {
        Some(p) => p,
        None => {
            return None;
        },
    };
    Some(
        (
            MonitoringConfig {
                cpu_overload_threshold: cpu,
                memory_overload_threshold: mem,
                cooldown_cpu_threshold: cool,
                cooldown_duration_ms: cd,
                poll_interval_ms: pi,
            },
            p11,
        ),
    )
}

/// The wire form of a persisted pool.
pub open spec fn spec_render_pool(p: PersistedPoolView) -> Seq<u8> {
    spec_render_pool_front(p) + spec_render_pool_back(p)
}

/// The leading half of a pool: name and containers.
pub open spec fn spec_render_pool_front(p: PersistedPoolView) -> Seq<u8> {
    encode_utf8("{\"function_name\":\""@) + esc_bytes(encode_utf8(p.function_name)) + seq![QUOTE]
        + encode_utf8(",\"containers\":"@) + spec_render_containers(p.containers)
}

/// The trailing half of a pool: bounds, thresholds and freshness.
pub open spec fn spec_render_pool_back(p: PersistedPoolView) -> Seq<u8> {
    encode_utf8(",\"min_containers\":"@) + dec_bytes(p.min_containers as nat) + encode_utf8(
        ",\"max_containers\":"@,
    ) + dec_bytes(p.max_containers as nat) + encode_utf8(",\"config\":"@) + spec_render_config(
        p.config,
    ) + encode_utf8(",\"last_updated\":"@) + dec_bytes_i64(p.last_updated as int) + encode_utf8(
        "}"@,
    )
}

/// Parse the leading half of a pool.
pub open spec fn spec_parse_pool_front(s: Seq<u8>) -> Option<
    ((Seq<char>, Seq<PersistedContainerView>), Seq<u8>),
> {
    match spec_expect(s, encode_utf8("{\"function_name\":\""@)) {
        None => None,
        Some(s1) => match spec_parse_string_body(s1) {
            None => None,
            Some((fnb, s2)) => if !valid_utf8(fnb) {
                None
            } else {
                match spec_expect(s2, encode_utf8(",\"containers\":"@)) {
                    None => None,
                    Some(s3) => match spec_parse_containers(s3) {
                        None => None,
                        Some((cs, s4)) => Some(((decode_utf8(fnb), cs), s4)),
                    },
                }
            },
        },
    }
}

/// Parse the trailing half of a pool.
pub open spec fn spec_parse_pool_back(s: Seq<u8>) -> Option<
    ((usize, usize, MonitoringConfig, i64), Seq<u8>),
> {
    match spec_expect(s, encode_utf8(",\"min_containers\":"@)) {
        None => None,
        Some(s1) => match spec_parse_u64(s1) {
            None => None,
            Some((mn, s2)) => if mn > usize::MAX as u64 {
                None
            } else {
                match spec_expect(s2, encode_utf8(",\"max_containers\":"@)) {
                    None => None,
                    Some(s3) => match spec_parse_u64(s3) {
                        None => None,
                        Some((mx, s4)) => if mx > usize::MAX as u64 {
                            None
                        } else {
                            match spec_expect(s4, encode_utf8(",\"config\":"@)) {
                                None => None,
                                Some(s5) => match spec_parse_config(s5) {
                                    None => None,
                                    Some((cfg, s6)) => match spec_expect(
                                        s6,
                                        encode_utf8(",\"last_updated\":"@),
                                    ) {
                                        None => None,
                                        Some(s7) => match spec_parse_i64(s7) {
                                            None => None,
                                            Some((lu, s8)) => match spec_expect(
                                                s8,
                                                encode_utf8("}"@),
                                            ) {
                                                None => None,
                                                Some(s9) => Some(
                                                    ((mn as usize, mx as usize, cfg, lu), s9),
                                                ),
                                            },
                                        },
                                    },
                                },
                            }
                        },
                    },
                }
            },
        },
    }
}

/// Parse a persisted pool.
pub open spec fn spec_parse_pool(s: Seq<u8>) -> Option<(PersistedPoolView, Seq<u8>)> {
    match spec_parse_pool_front(s) {
        None => None,
        Some(((name, cs), s4)) => match spec_parse_pool_back(s4) {
            None => None,
            Some(((mn, mx, cfg, lu), rem)) => Some(
                (
                    PersistedPoolView {
                        function_name: name,
                        containers: cs,
                        min_containers: mn,
                        max_containers: mx,
                        config: cfg,
                        last_updated: lu,
                    },
                    rem,
                ),
            ),
        },
    }
}

proof fn lemma_pool_lit_bytes()
    ensures
        encode_utf8(",\"min_containers\":"@).len() >= 1 && encode_utf8(",\"min_containers\":"@)[0]
            == 0x2C,
        encode_utf8(",\"max_containers\":"@).len() >= 1 && encode_utf8(",\"max_containers\":"@)[0]
            == 0x2C,
        encode_utf8(",\"config\":"@).len() >= 1 && encode_utf8(",\"config\":"@)[0] == 0x2C,
        encode_utf8(",\"last_updated\":"@).len() >= 1 && encode_utf8(",\"last_updated\":"@)[0]
            == 0x2C,
        encode_utf8("}"@).len() == 1 && encode_utf8("}"@)[0] == 0x7D,
{
    reveal_strlit(",\"min_containers\":");
    reveal_strlit(",\"max_containers\":");
    reveal_strlit(",\"config\":");
    reveal_strlit(",\"last_updated\":");
    reveal_strlit("}");
    crate::text::lemma_ascii_seq(",\"min_containers\":"@);
    crate::text::lemma_ascii_seq(",\"max_containers\":"@);
    crate::text::lemma_ascii_seq(",\"config\":"@);
    crate::text::lemma_ascii_seq(",\"last_updated\":"@);
    crate::text::lemma_ascii_seq("}"@);
}

/// A rendered leading pool half followed by anything parses back to itself.
#[verifier::rlimit(100)]
#[verifier::spinoff_prover]
proof fn lemma_pool_front_roundtrip(p: PersistedPoolView, rest: Seq<u8>)
    ensures
        spec_parse_pool_front(spec_render_pool_front(p) + rest) == Some(
            ((p.function_name, p.containers), rest),
        ),
{
    let l1 = encode_utf8("{\"function_name\":\""@);
    let l2 = encode_utf8(",\"containers\":"@);
    let fnb = encode_utf8(p.function_name);
    let s4 = rest;
    let s3 = spec_render_containers(p.containers) + s4;
    let s2 = l2 + s3;
    let s1 = esc_bytes(fnb) + seq![QUOTE] + s2;
    let s0 = spec_render_pool_front(p) + rest;
    assert(s0 =~= l1 + s1);
    lemma_expect_roundtrip(l1, s1);
    assert(s1 =~= esc_bytes(fnb) + seq![QUOTE] + s2);
    lemma_parse_string_roundtrip(fnb, s2);
    vstd::utf8::encode_utf8_valid_utf8(p.function_name);
    vstd::utf8::encode_utf8_decode_utf8(p.function_name);
    assert(s2 =~= l2 + s3);
    lemma_expect_roundtrip(l2, s3);
    assert(s3 =~= spec_render_containers(p.containers) + s4);
    lemma_containers_roundtrip(p.containers, s4);
}

/// A rendered trailing pool half followed by anything parses back to itself.
#[verifier::rlimit(100)]
#[verifier::spinoff_prover]
proof fn lemma_pool_back_roundtrip(p: PersistedPoolView, rest: Seq<u8>)
    ensures
        spec_parse_pool_back(spec_render_pool_back(p) + rest) == Some(
            ((p.min_containers, p.max_containers, p.config, p.last_updated), rest),
        ),
{
    lemma_pool_lit_bytes();
    let l1 = encode_utf8(",\"min_containers\":"@);
    let l2 = encode_utf8(",\"max_containers\":"@);
    let l3 = encode_utf8(",\"config\":"@);
    let l4 = encode_utf8(",\"last_updated\":"@);
    let rb = encode_utf8("}"@);
    let s9 = rest;
    let s8 = rb + s9;
    let s7 = dec_bytes_i64(p.last_updated as int) + s8;
    let s6 = l4 + s7;
    let s5 = spec_render_config(p.config) + s6;
    let s4 = l3 + s5;
    let s3 = dec_bytes(p.max_containers as nat) + s4;
    let s2 = l2 + s3;
    let s1 = dec_bytes(p.min_containers as nat) + s2;
    let s0 = spec_render_pool_back(p) + rest;
    assert(s0 =~= l1 + s1);
    lemma_expect_roundtrip(l1, s1);
    assert(s1 =~= dec_bytes(p.min_containers as nat) + s2);
    assert(s2[0] == 0x2C && !is_digit_byte(s2[0]));
    lemma_parse_u64_roundtrip(p.min_containers as u64, s2);
    assert(s2 =~= l2 + s3);
    lemma_expect_roundtrip(l2, s3);
    assert(s3 =~= dec_bytes(p.max_containers as nat) + s4);
    assert(s4[0] == 0x2C && !is_digit_byte(s4[0]));
    lemma_parse_u64_roundtrip(p.max_containers as u64, s4);
    assert(s4 =~= l3 + s5);
    lemma_expect_roundtrip(l3, s5);
    assert(s5 =~= spec_render_config(p.config) + s6);
    lemma_config_roundtrip(p.config, s6);
    assert(s6 =~= l4 + s7);
    lemma_expect_roundtrip(l4, s7);
    assert(s7 =~= dec_bytes_i64(p.last_updated as int) + s8);
    assert(s8[0] == 0x7D && !is_digit_byte(s8[0]));
    lemma_parse_i64_roundtrip(p.last_updated, s8);
    assert(s8 =~= rb + s9);
    lemma_expect_roundtrip(rb, s9);
}

/// A rendered pool followed by anything parses back to itself.
pub proof fn lemma_pool_roundtrip(p: PersistedPoolView, rest: Seq<u8>)
    ensures
        spec_parse_pool(spec_render_pool(p) + rest) == Some((p, rest)),
{
    lemma_pool_lit_bytes();
    let back = spec_render_pool_back(p) + rest;
    assert(spec_render_pool(p) + rest =~= spec_render_pool_front(p) + back);
    lemma_pool_front_roundtrip(p, back);
    lemma_pool_back_roundtrip(p, rest);
}

/// The serialized form of a pool parses back to an identical pool: the wire
/// schema is stable under a round trip.
pub proof fn lemma_pool_state_roundtrip(p: PersistedPoolView)
    ensures
        spec_parse_pool(spec_render_pool(p)) == Some((p, Seq::<u8>::empty())),
{
    assert(spec_render_pool(p) + Seq::<u8>::empty() =~= spec_render_pool(p));
    lemma_pool_roundtrip(p, Seq::empty());
}

/// Serialize a pool for storage.
#[verifier::rlimit(100)]
#[verifier::spinoff_prover]
pub fn render_pool_state(p: &PersistedPoolState) -> (r: Vec<u8>)
    ensures
        r@ == spec_render_pool(p@),
{
    let mut out: Vec<u8> = Vec::new();
    append_lit(&mut out, "{\"function_name\":\"");
    let fnb = string_bytes(p.function_name.as_str());
    escape_into(&mut out, fnb.as_slice());
    out.push(QUOTE);
    append_lit(&mut out, ",\"containers\":");
    render_containers(&mut out, &p.containers);
    append_lit(&mut out, ",\"min_containers\":");
    render_u64(&mut out, p.min_containers as u64);
    append_lit(&mut out, ",\"max_containers\":");
    render_u64(&mut out, p.max_containers as u64);
    append_lit(&mut out, ",\"config\":");
    render_config(&mut out, &p.config);
    append_lit(&mut out, ",\"last_updated\":");
    render_i64(&mut out, p.last_updated);
    append_lit(&mut out, "}");
    assert(out@ =~= spec_render_pool(p@));
    out
}

/// Deserialize a pool from storage; the whole input must be one pool.
#[verifier::rlimit(100)]
pub fn parse_pool_state(s: &Vec<u8>) -> (r: Option<PersistedPoolState>)
    ensures
        match spec_parse_pool(s@) {
            Some((p, rem)) => {
                &&& rem.len() == 0 ==> r is Some && r->0@ == p
                &&& rem.len() != 0 ==> r is None
            },
            None => r is None,
        },
{
    let n = s.len();
    assert(n == s@.len());
    assert(s@.skip(0) =~= s@);
    let p1 = match expect_lit(s, 0, "{\"function_name\":\"") {
        Some(p) => p,
        None => {
            return None;
        },
    };
    let (fn_bytes, p2) = match parse_string_body(s, p1) {
        Some(x) => x,
        None => {
            return None;
        },
    };
    proof {
        crate::text::lemma_parse_string_suffix(s@.skip(p1 as int));
        let rem = (spec_parse_string_body(s@.skip(p1 as int))->0).1;
        assert(rem == s@.skip(p1 as int).skip(s@.skip(p1 as int).len() - rem.len()));
        assert(s@.skip(p1 as int).skip(s@.skip(p1 as int).len() - rem.len()) =~= s@.skip(
            s@.len() - rem.len(),
        ));
        assert(s@.skip(p2 as int) == rem);
    }
    let function_name = match bytes_to_string(fn_bytes) {
        Some(x) => x,
        None => {
            return None;
        },
    };
    let p3 = match expect_lit(s, p2, ",\"containers\":") {
        Some(p) => p,
        None => {
            return None;
        },
    };
    let (containers, p4) = match parse_containers(s, p3) {
        Some(x) => x,
        None => {
            return None;
        },
    };
    let p5 = match expect_lit(s, p4, ",\"min_containers\":") {
        Some(p) => p,
        None => {
            return None;
        },
    };
    let (mn, p6) = match parse_u64(s, p5) {
        Some(x) => x,
        None => {
            return None;
        },
    };
    proof {
        crate::text::lemma_parse_u64_suffix(s@.skip(p5 as int));
        let rem = (spec_parse_u64(s@.skip(p5 as int))->0).1;
        assert(rem == s@.skip(p5 as int).skip(s@.skip(p5 as int).len() - rem.len()));
        assert(s@.skip(p5 as int).skip(s@.skip(p5 as int).len() - rem.len()) =~= s@.skip(
            s@.len() - rem.len(),
        ));
        assert(s@.skip(p6 as int) == rem);
    }
    if mn > usize::MAX as u64 {
        return None;
    }
    let p7 = match expect_lit(s, p6, ",\"max_containers\":") {
        Some(p) => p,
        None => {
            return None;
        },
    };
    let (mx, p8) = match parse_u64(s, p7) {
        Some(x) => x,
        None => {
            return None;
        },
    };
    proof {
        crate::text::lemma_parse_u64_suffix(s@.skip(p7 as int));
        let rem = (spec_parse_u64(s@.skip(p7 as int))->0).1;
        assert(rem == s@.skip(p7 as int).skip(s@.skip(p7 as int).len() - rem.len()));
        assert(s@.skip(p7 as int).skip(s@.skip(p7 as int).len() - rem.len()) =~= s@.skip(
            s@.len() - rem.len(),
        ));
        assert(s@.skip(p8 as int) == rem);
    }
    if mx > usize::MAX as u64 {
        return None;
    }
    let p9 = match expect_lit(s, p8, ",\"config\":") {
        Some(p) => p,
        None => {
            return None;
        },
    };
    let (config, p10) = match parse_config(s, p9) {
        Some(x) => x,
        None => {
            return None;
        },
    };
    let p11 = match expect_lit(s, p10, ",\"last_updated\":") {
        Some(p) => p,
        None => {
            return None;
        },
    };
    let (last_updated, p12) = match parse_i64(s, p11) {
        Some(x) => x,
        None => {
            return None;
        },
    };
    proof {
        crate::text::lemma_parse_i64_suffix(s@.skip(p11 as int));
        let rem = (spec_parse_i64(s@.skip(p11 as int))->0).1;
        assert(rem == s@.skip(p11 as int).skip(s@.skip(p11 as int).len() - rem.len()));
        assert(s@.skip(p11 as int).skip(s@.skip(p11 as int).len() - rem.len()) =~= s@.skip(
            s@.len() - rem.len(),
        ));
        assert(s@.skip(p12 as int) == rem);
    }
    let p13 = match expect_lit(s, p12, "}") {
        Some(p) => p,
        None => {
            return None;
        },
    };
    if p13 != n {
        assert(s@.skip(p13 as int).len() != 0);
        return None;
    }
    assert(s@.skip(p13 as int).len() == 0);
    let r = PersistedPoolState {
        function_name,
        containers,
        min_containers: mn as usize,
        max_containers: mx as usize,
        config,
        last_updated,
    };
    proof {
        let (pv, rem) = spec_parse_pool(s@)->0;
        assert(r@.containers =~= pv.containers);
        assert(r@ == pv);
    }
    Some(r)
}

/// The wire form of the persistence metadata.
pub open spec fn spec_render_metadata(m: PersistenceMetadataView) -> Seq<u8> {
    encode_utf8("{\"version\":\""@) + esc_bytes(encode_utf8(m.version)) + seq![QUOTE]
        + encode_utf8(",\"last_cleanup\":"@) + dec_bytes_i64(m.last_cleanup as int) + encode_utf8(
        ",\"total_pools\":"@,
    ) + dec_bytes(m.total_pools as nat) + encode_utf8("}"@)
}

/// Parse the persistence metadata.
pub open spec fn spec_parse_metadata(s: Seq<u8>) -> Option<(PersistenceMetadataView, Seq<u8>)> {
    match spec_expect(s, encode_utf8("{\"version\":\""@)) {
        None => None,
        Some(s1) => match spec_parse_string_body(s1) {
            None => None,
            Some((vb, s2)) => if !valid_utf8(vb) {
                None
            } else {
                match spec_expect(s2, encode_utf8(",\"last_cleanup\":"@)) {
                    None => None,
                    Some(s3) => match spec_parse_i64(s3) {
                        None => None,
                        Some((lc, s4)) => match spec_expect(s4, encode_utf8(",\"total_pools\":"@)) {
                            None => None,
                            Some(s5) => match spec_parse_u64(s5) {
                                None => None,
                                Some((tp, s6)) => if tp > usize::MAX as u64 {
                                    None
                                } else {
                                    match spec_expect(s6, encode_utf8("}"@)) {
                                        None => None,
                                        Some(s7) => Some(
                                            (
                                                PersistenceMetadataView {
                                                    version: decode_utf8(vb),
                                                    last_cleanup: lc,
                                                    total_pools: tp as usize,
                                                },
                                                s7,
                                            ),
                                        ),
                                    }
                                },
                            },
                        },
                    },
                }
            },
        },
    }
}

/// A rendered metadata record followed by anything parses back to itself.
#[verifier::rlimit(100)]
#[verifier::spinoff_prover]
pub proof fn lemma_metadata_roundtrip(m: PersistenceMetadataView, rest: Seq<u8>)
    ensures
        spec_parse_metadata(spec_render_metadata(m) + rest) == Some((m, rest)),
{
    reveal_strlit(",\"total_pools\":");
    reveal_strlit("}");
    crate::text::lemma_ascii_seq(",\"total_pools\":"@);
    crate::text::lemma_ascii_seq("}"@);
    assert(encode_utf8(",\"total_pools\":"@)[0] == 0x2C);
    assert(encode_utf8("}"@)[0] == 0x7D);
    let l1 = encode_utf8("{\"version\":\""@);
    let l2 = encode_utf8(",\"last_cleanup\":"@);
    let l3 = encode_utf8(",\"total_pools\":"@);
    let rb = encode_utf8("}"@);
    let vb = encode_utf8(m.version);
    let s7 = rest;
    let s6 = rb + s7;
    let s5 = dec_bytes(m.total_pools as nat) + s6;
    let s4 = l3 + s5;
    let s3 = dec_bytes_i64(m.last_cleanup as int) + s4;
    let s2 = l2 + s3;
    let s1 = esc_bytes(vb) + seq![QUOTE] + s2;
    let s0 = spec_render_metadata(m) + rest;
    assert(s0 =~= l1 + s1);
    lemma_expect_roundtrip(l1, s1);
    assert(s1 =~= esc_bytes(vb) + seq![QUOTE] + s2);
    lemma_parse_string_roundtrip(vb, s2);
    vstd::utf8::encode_utf8_valid_utf8(m.version);
    vstd::utf8::encode_utf8_decode_utf8(m.version);
    assert(s2 =~= l2 + s3);
    lemma_expect_roundtrip(l2, s3);
    assert(s3 =~= dec_bytes_i64(m.last_cleanup as int) + s4);
    assert(s4[0] == 0x2C && !is_digit_byte(s4[0]));
    lemma_parse_i64_roundtrip(m.last_cleanup, s4);
    assert(s4 =~= l3 + s5);
    lemma_expect_roundtrip(l3, s5);
    assert(s5 =~= dec_bytes(m.total_pools as nat) + s6);
    assert(s6[0] == 0x7D && !is_digit_byte(s6[0]));
    lemma_parse_u64_roundtrip(m.total_pools as u64, s6);
    assert(s6 =~= rb + s7);
    lemma_expect_roundtrip(rb, s7);
}

/// The serialized metadata parses back identically.
pub proof fn lemma_metadata_state_roundtrip(m: PersistenceMetadataView)
    ensures
        spec_parse_metadata(spec_render_metadata(m)) == Some((m, Seq::<u8>::empty())),
{
    assert(spec_render_metadata(m) + Seq::<u8>::empty() =~= spec_render_metadata(m));
    lemma_metadata_roundtrip(m, Seq::empty());
}

/// Serialize the persistence metadata.
pub fn render_metadata(m: &PersistenceMetadata) -> (r: Vec<u8>)
    ensures
        r@ == spec_render_metadata(m@),
{
    let mut out: Vec<u8> = Vec::new();
    append_lit(&mut out, "{\"version\":\"");
    let vb = string_bytes(m.version.as_str());
    escape_into(&mut out, vb.as_slice());
    out.push(QUOTE);
    append_lit(&mut out, ",\"last_cleanup\":");
    render_i64(&mut out, m.last_cleanup);
    append_lit(&mut out, ",\"total_pools\":");
    render_u64(&mut out, m.total_pools as u64);
    append_lit(&mut out, "}");
    assert(out@ =~= spec_render_metadata(m@));
    out
}

/// Deserialize the persistence metadata; the whole input must be one
/// record.
pub fn parse_metadata(s: &Vec<u8>) -> (r: Option<PersistenceMetadata>)
    ensures
        match spec_parse_metadata(s@) {
            Some((m, rem)) => {
                &&& rem.len() == 0 ==> r is Some && r->0@ == m
                &&& rem.len() != 0 ==> r is None
            },
            None => r is None,
        },
{
    let n = s.len();
    assert(n == s@.len());
    assert(s@.skip(0) =~= s@);
    let p1 = match expect_lit(s, 0, "{\"version\":\"") {
        Some(p) => p,
        None => {
            return None;
        },
    };
    let (vb, p2) = match parse_string_body(s, p1) {
        Some(x) => x,
        None => {
            return None;
        },
    };
    proof {
        crate::text::lemma_parse_string_suffix(s@.skip(p1 as int));
        let rem = (spec_parse_string_body(s@.skip(p1 as int))->0).1;
        assert(rem == s@.skip(p1 as int).skip(s@.skip(p1 as int).len() - rem.len()));
        assert(s@.skip(p1 as int).skip(s@.skip(p1 as int).len() - rem.len()) =~= s@.skip(
            s@.len() - rem.len(),
        ));
        assert(s@.skip(p2 as int) == rem);
    }
    let version = match bytes_to_string(vb) {
        Some(x) => x,
        None => {
            return None;
        },
    };
    let p3 = match expect_lit(s, p2, ",\"last_cleanup\":") {
        Some(p) => p,
        None => {
            return None;
        },
    };
    let (last_cleanup, p4) = match parse_i64(s, p3) {
        Some(x) => x,
        None => {
            return None;
        },
    };
    proof {
        crate::text::lemma_parse_i64_suffix(s@.skip(p3 as int));
        let rem = (spec_parse_i64(s@.skip(p3 as int))->0).1;
        assert(rem == s@.skip(p3 as int).skip(s@.skip(p3 as int).len() - rem.len()));
        assert(s@.skip(p3 as int).skip(s@.skip(p3 as int).len() - rem.len()) =~= s@.skip(
            s@.len() - rem.len(),
        ));
        assert(s@.skip(p4 as int) == rem);
    }
    let p5 = match expect_lit(s, p4, ",\"total_pools\":") {
        Some(p) => p,
        None => {
            return None;
        },
    };
    let (tp, p6) = match parse_u64(s, p5) {
        Some(x) => x,
        None => {
            return None;
        },
    };
    proof {
        crate::text::lemma_parse_u64_suffix(s@.skip(p5 as int));
        let rem = (spec_parse_u64(s@.skip(p5 as int))->0).1;
        assert(rem == s@.skip(p5 as int).skip(s@.skip(p5 as int).len() - rem.len()));
        assert(s@.skip(p5 as int).skip(s@.skip(p5 as int).len() - rem.len()) =~= s@.skip(
            s@.len() - rem.len(),
        ));
        assert(s@.skip(p6 as int) == rem);
    }
    if tp > usize::MAX as u64 {
        return None;
    }
    let p7 = match expect_lit(s, p6, "}") {
        Some(p) => p,
        None => {
            return None;
        },
    };
    if p7 != n {
        assert(s@.skip(p7 as int).len() != 0);
        return None;
    }
    assert(s@.skip(p7 as int).len() == 0);
    Some(PersistenceMetadata { version, last_cleanup, total_pools: tp as usize })
}

/// Persisting a pool, reading the stored bytes back, and reviving the
/// records yields a pool with the same function name, bounds, thresholds,
/// and the same containers — identical ids, names, ports and statuses, in
/// the same order; only the monotonic timers shift with the clocks.
pub proof fn lemma_persist_revive_roundtrip(
    p: crate::pool::PoolView,
    save_ms: u64,
    save_unix_s: u64,
    load_ms: u64,
    load_unix_s: u64,
)
    requires
        p.wf(),
        p.timestamps_at_most(save_ms),
        save_unix_s <= i64::MAX as u64,
    ensures
        ({
            let stored = crate::persistence::spec_persist_pool(p, save_ms, save_unix_s);
            let revived = Seq::new(
                stored.containers.len(),
                |i: int|
                    crate::persistence::spec_revive_container(
                        stored.containers[i],
                        load_ms,
                        load_unix_s,
                    ),
            );
            &&& spec_parse_pool(spec_render_pool(stored)) == Some((stored, Seq::<u8>::empty()))
            &&& stored.function_name == p.function_name
            &&& stored.min_containers == p.min_containers
            &&& stored.max_containers == p.max_containers
            &&& stored.config == p.config
            &&& revived.len() == p.containers.len()
            &&& forall|i: int|
                0 <= i < p.containers.len() ==> {
                    &&& (#[trigger] revived[i]).id == p.containers[i].id
                    &&& revived[i].name == p.containers[i].name
                    &&& revived[i].container_port == p.containers[i].container_port
                    &&& revived[i].status == p.containers[i].status
                    &&& revived[i].wf()
                }
            &&& forall|i: int, j: int|
                #![trigger revived[i].last_active, revived[j].last_active]
                0 <= i < p.containers.len() && 0 <= j < p.containers.len()
                    && p.containers[i].last_active <= p.containers[j].last_active
                    ==> revived[i].last_active <= revived[j].last_active
        }),
{
    let stored = crate::persistence::spec_persist_pool(p, save_ms, save_unix_s);
    lemma_pool_state_roundtrip(stored);
    let revived = Seq::new(
        stored.containers.len(),
        |i: int|
            crate::persistence::spec_revive_container(stored.containers[i], load_ms, load_unix_s),
    );
    assert forall|i: int| 0 <= i < p.containers.len() implies {
        &&& (#[trigger] revived[i]).id == p.containers[i].id
        &&& revived[i].name == p.containers[i].name
        &&& revived[i].container_port == p.containers[i].container_port
        &&& revived[i].status == p.containers[i].status
        &&& revived[i].wf()
    } by {
        assert(stored.containers[i] == crate::persistence::spec_persist_container(
            p.containers[i],
            save_ms,
            save_unix_s,
        ));
        assert(p.containers[i].wf());
    }
    // Relative activity order survives the round trip non-strictly: both
    // clock translations are monotone, though whole-second storage may
    // collapse sub-second gaps into ties.
    assert forall|i: int, j: int|
        #![trigger revived[i].last_active, revived[j].last_active]
        0 <= i < p.containers.len() && 0 <= j < p.containers.len()
            && p.containers[i].last_active <= p.containers[j].last_active implies revived[i]
        .last_active <= revived[j].last_active by {
        assert(stored.containers[i] == crate::persistence::spec_persist_container(
            p.containers[i],
            save_ms,
            save_unix_s,
        ));
        assert(stored.containers[j] == crate::persistence::spec_persist_container(
            p.containers[j],
            save_ms,
            save_unix_s,
        ));
        assert(p.containers[i].timestamps_at_most(save_ms));
        assert(p.containers[j].timestamps_at_most(save_ms));
        crate::persistence::lemma_to_unix_monotone(
            p.containers[i].last_active,
            p.containers[j].last_active,
            save_ms,
            save_unix_s,
        );
        crate::persistence::lemma_from_unix_monotone(
            stored.containers[i].last_active_unix,
            stored.containers[j].last_active_unix,
            load_ms,
            load_unix_s,
        );
    }
}

} // verus!
