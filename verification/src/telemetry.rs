//! Where telemetry is sent (an IPv4 endpoint parsed from dotted-decimal
//! text) and what is sent: an HTTP/1.0 POST of a small JSON body.
use vstd::prelude::*;
use vstd::string::StringSliceAdditionalSpecFns;
use vstd::string::is_ascii_spec_bytes;

verus! {

/// Port the telemetry server listens on.
pub const TELEMETRY_PORT: u16 = 8080;

/// An IPv4 address and a port.
#[derive(Clone, Copy)]
pub struct Endpoint {
    pub octets: [u8; 4],
    pub port: u16,
}

/// One decimal digit step, as the parser computes it in wrapping
/// arithmetic: `v * 10 + (b - b'0')`.
pub open spec fn digit_step(v: u32, b: u8) -> u32 {
    ((v * 10 + ((b + 208) % 256)) % 0x1_0000_0000) as u32
}

/// The parser's state after the bytes `t`: the octets completed so far,
/// the index of the octet being read, and its value so far.
pub open spec fn parse_state(t: Seq<u8>) -> (Seq<u8>, int, u32)
    decreases t.len(),
{
    if t.len() == 0 {
        (seq![0u8, 0u8, 0u8, 0u8], 0, 0)
    } else {
        let st = parse_state(t.drop_last());
        if t.last() == 46 {
            (
                if 0 <= st.1 < 4 {
                    st.0.update(st.1, (st.2 % 256) as u8)
                } else {
                    st.0
                },
                st.1 + 1,
                0,
            )
        } else {
            (st.0, st.1, digit_step(st.2, t.last()))
        }
    }
}

/// Number of `.` bytes in `t`.
pub open spec fn dot_count(t: Seq<u8>) -> int
    decreases t.len(),
{
    if t.len() == 0 {
        0
    } else {
        dot_count(t.drop_last()) + if t.last() == 46 {
            1int
        } else {
            0
        }
    }
}

/// The four octets parsed from `t`: the values of the dot-separated groups,
/// each cut to 8 bits; missing groups are 0.
pub open spec fn parse_octets(t: Seq<u8>) -> Seq<u8> {
    let st = parse_state(t);
    st.0.update(st.1, (st.2 % 256) as u8)
}

proof fn lemma_parse_state(t: Seq<u8>)
    ensures
        parse_state(t).1 == dot_count(t),
        parse_state(t).0.len() == 4,
        0 <= dot_count(t) <= t.len(),
    decreases t.len(),
{
    if t.len() > 0 {
        lemma_parse_state(t.drop_last());
        let st = parse_state(t.drop_last());
        assert(st.0.len() == 4);

    }
}

proof fn lemma_dot_count_prefix(t: Seq<u8>, k: int)
    requires
        0 <= k <= t.len(),
    ensures
        dot_count(t.take(k)) <= dot_count(t),
    decreases t.len() - k,
{
    if k < t.len() {
        lemma_dot_count_prefix(t, k + 1);
        assert(t.take(k + 1).drop_last() =~= t.take(k));
    } else {
        assert(t.take(k) =~= t);
    }
}

/// Every byte of `t` is an ASCII digit or a `.`.
pub open spec fn digits_and_dots(t: Seq<u8>) -> bool {
    forall|i: int| 0 <= i < t.len() ==> #[trigger] t[i] == 46 || 48 <= t[i] <= 57
}

/// No byte of `t` other than `.` lies below `'0'`: on each of them the
/// parser's digit step `b - b'0'` does not underflow.
pub open spec fn no_byte_below_digits(t: Seq<u8>) -> bool {
    forall|i: int| 0 <= i < t.len() ==> #[trigger] t[i] == 46 || 48 <= t[i]
}

/// Parses a dotted-decimal IPv4 address (`"a.b.c.d"`) and pairs it with
/// `port`. Every byte other than `.` is read as a digit `b - b'0'`; bytes
/// below `'0'` are left out (that subtraction would underflow), as are more
/// than three dots (a fifth group would run past the octets). Bytes above
/// `'9'` and over-long groups give wrapped values: each group's value is
/// computed in wrapping `u32` arithmetic, as the release build does, and cut
/// to 8 bits.
pub fn parse_endpoint(s: &str, port: u16) -> (e: Endpoint)
    requires
        no_byte_below_digits(s.spec_bytes()),
        dot_count(s.spec_bytes()) <= 3,
    ensures
        e.octets@ == parse_octets(s.spec_bytes()),
        e.port == port,
{
    let bytes = s.as_bytes();
    let ghost t = bytes@;
    let mut octets = [0u8; 4];
    let mut idx: usize = 0;
    let mut val: u32 = 0;
    proof {
        lemma_parse_state(t);
        assert(t.take(0) =~= Seq::<u8>::empty());
        assert(octets@ =~= seq![0u8, 0u8, 0u8, 0u8]);
    }
    for k in 0..bytes.len()
        invariant
            t == bytes@,
            dot_count(t) <= 3,
            parse_state(t.take(k as int)) == (octets@, idx as int, val),
            idx as int == dot_count(t.take(k as int)),
    {
        let b = bytes[k];
        proof {
            assert(t.take(k + 1).drop_last() =~= t.take(k as int));
            assert(t.take(k + 1).last() == b);
            lemma_dot_count_prefix(t, k + 1);
            lemma_parse_state(t.take(k as int));
        }
        if b == 46 {
            octets[idx] = (val % 256) as u8;
            idx += 1;
            val = 0;
        } else {
            val = val.wrapping_mul(10).wrapping_add(b.wrapping_sub(48) as u32);
        }
    }
    proof {
        assert(t.take(bytes.len() as int) =~= t);
        lemma_parse_state(t);
    }
    octets[idx] = (val % 256) as u8;
    Endpoint { octets, port }
}

/// ASCII decimal digits of `n`, most significant first, no leading zeros.
pub open spec fn decimal(n: nat) -> Seq<u8>
    decreases n,
{
    if n < 10 {
        seq![(n + 48) as u8]
    } else {
        decimal(n / 10).push((n % 10 + 48) as u8)
    }
}

/// `n` in decimal with a leading `-` when negative.
pub open spec fn signed_decimal(n: int) -> Seq<u8> {
    if n < 0 {
        seq![45u8] + decimal((-n) as nat)
    } else {
        decimal(n as nat)
    }
}

/// The bytes of ASCII text.
pub open spec fn ascii_bytes(s: Seq<char>) -> Seq<u8> {
    Seq::new(s.len(), |i: int| s[i] as u8)
}

/// The JSON body reporting node `id` and its neighbour count.
pub open spec fn telemetry_body(id: Seq<u8>, num_neighbors: int) -> Seq<u8> {
    ascii_bytes("{\"id\":\""@) + id + ascii_bytes("\",\"num_neighbors\":"@) + signed_decimal(
        num_neighbors,
    ) + ascii_bytes("}"@)
}

/// The HTTP request that posts `body` to `/update` on `host`.
pub open spec fn telemetry_request_spec(host: Seq<u8>, body: Seq<u8>) -> Seq<u8> {
    ascii_bytes("POST /update HTTP/1.0\r\nHost: "@) + host + ascii_bytes(
        "\r\nContent-Type: application/json\r\nContent-Length: "@,
    ) + decimal(body.len()) + ascii_bytes("\r\nConnection: close\r\n\r\n"@) + body
}

/// Appends the decimal digits of `n`.
fn push_decimal(out: &mut Vec<u8>, n: u64)
    ensures
        final(out)@ == old(out)@ + decimal(n as nat),
    decreases n,
{
    if n >= 10 {
        push_decimal(out, n / 10);
    }
    let d: u8 = (n % 10) as u8;
    out.push(d + 48);
    assert(old(out)@ + decimal(n as nat) =~= final(out)@) by {
        if n >= 10 {
            assert(old(out)@ + decimal(n as nat) =~= (old(out)@ + decimal((n / 10) as nat)).push(
                (n % 10 + 48) as u8,
            ));
        }
    }
}

/// Appends the bytes of `s`.
fn push_bytes(out: &mut Vec<u8>, s: &[u8])
    ensures
        final(out)@ == old(out)@ + s@,
{
    let ghost start = out@;
    for k in 0..s.len()
        invariant
            out@ == start + s@.take(k as int),
    {
        out.push(s[k]);
        assert(s@.take(k + 1) =~= s@.take(k as int).push(s@[k as int]));
    }
    assert(s@.take(s.len() as int) =~= s@);
}

/// Appends ASCII text.
fn push_ascii(out: &mut Vec<u8>, s: &str)
    requires
        s.is_ascii(),
    ensures
        final(out)@ == old(out)@ + ascii_bytes(s@),
{
    proof {
        is_ascii_spec_bytes(s);
    }
    push_bytes(out, s.as_bytes());
    assert(s.spec_bytes() =~= ascii_bytes(s@));
}

/// The JSON body `{"id":"<id>","num_neighbors":<n>}` as sent by a node.
pub fn telemetry_body_bytes(id: &str, num_neighbors: i32) -> (r: Vec<u8>)
    ensures
        r@ == telemetry_body(id.spec_bytes(), num_neighbors as int),
{
    let mut out: Vec<u8> = Vec::new();
    proof {
        reveal_strlit("{\"id\":\"");
        reveal_strlit("\",\"num_neighbors\":");
        reveal_strlit("}");
    }
    push_ascii(&mut out, "{\"id\":\"");
    push_bytes(&mut out, id.as_bytes());
    push_ascii(&mut out, "\",\"num_neighbors\":");
    let ghost before_number = out@;
    if num_neighbors < 0 {
        out.push(45);
        let m: i64 = -(num_neighbors as i64);
        push_decimal(&mut out, m as u64);
    } else {
        push_decimal(&mut out, num_neighbors as u64);
    }
    assert(out@ =~= before_number + signed_decimal(num_neighbors as int));
    push_ascii(&mut out, "}");
    assert(out@ =~= telemetry_body(id.spec_bytes(), num_neighbors as int));
    out
}

/// The HTTP/1.0 request a node sends to the telemetry server at `host`:
/// a POST to `/update` with a JSON body naming the node and its neighbour
/// count, the body's length in `Content-Length`, and `Connection: close`.
pub fn telemetry_request(host: &str, id: &str, num_neighbors: i32) -> (r: Vec<u8>)
    ensures
        r@ == telemetry_request_spec(
            host.spec_bytes(),
            telemetry_body(id.spec_bytes(), num_neighbors as int),
        ),
{
    let body = telemetry_body_bytes(id, num_neighbors);
    let mut out: Vec<u8> = Vec::new();
    proof {
        reveal_strlit("POST /update HTTP/1.0\r\nHost: ");
        reveal_strlit("\r\nContent-Type: application/json\r\nContent-Length: ");
        reveal_strlit("\r\nConnection: close\r\n\r\n");
    }
    push_ascii(&mut out, "POST /update HTTP/1.0\r\nHost: ");
    push_bytes(&mut out, host.as_bytes());
    push_ascii(&mut out, "\r\nContent-Type: application/json\r\nContent-Length: ");
    push_decimal(&mut out, body.len() as u64);
    push_ascii(&mut out, "\r\nConnection: close\r\n\r\n");
    push_bytes(&mut out, body.as_slice());
    assert(out@ =~= telemetry_request_spec(host.spec_bytes(), body@));
    out
}

/// The text `a.b.c.d` of four octets in decimal.
pub open spec fn dotted_quad(a: u8, b: u8, c: u8, d: u8) -> Seq<u8> {
    decimal(a as nat) + seq![46u8] + decimal(b as nat) + seq![46u8] + decimal(c as nat) + seq![46u8]
        + decimal(d as nat)
}

/// Reading the decimal digits of `n` after `t` leaves the octets and the
/// group index alone and sets the group's value to `n`.
proof fn lemma_parse_decimal(t: Seq<u8>, n: nat)
    requires
        parse_state(t).2 == 0,
        n < 256,
    ensures
        parse_state(t + decimal(n)) == (parse_state(t).0, parse_state(t).1, n as u32),
        dot_count(t + decimal(n)) == dot_count(t),
        digits_and_dots(t) ==> digits_and_dots(t + decimal(n)),
    decreases n,
{
    let u = t + decimal(n);
    if n < 10 {
        assert(u.drop_last() =~= t);
        assert(u.last() == (n + 48) as u8);
    } else {
        lemma_parse_decimal(t, n / 10);
        assert(u.drop_last() =~= t + decimal(n / 10));
        assert(u.last() == (n % 10 + 48) as u8);
        assert((n / 10) * 10 + n % 10 == n);
    }
    if digits_and_dots(t) {
        assert forall|i: int| 0 <= i < u.len() implies #[trigger] u[i] == 46 || 48 <= u[i] <= 57 by {
            if i < u.len() - 1 {
                assert(u[i] == u.drop_last()[i]);
            }
        }
    }
}

/// A dot ends the current group: its value goes into the octet at the
/// group index, and the next group starts at 0.
proof fn lemma_parse_dot(t: Seq<u8>)
    ensures
        parse_state(t + seq![46u8]) == ({
            let st = parse_state(t);
            (
                if 0 <= st.1 < 4 {
                    st.0.update(st.1, (st.2 % 256) as u8)
                } else {
                    st.0
                },
                st.1 + 1,
                0u32,
            )
        }),
        dot_count(t + seq![46u8]) == dot_count(t) + 1,
        digits_and_dots(t) ==> digits_and_dots(t + seq![46u8]),
{
    let u = t + seq![46u8];
    assert(u.drop_last() =~= t);
    if digits_and_dots(t) {
        assert forall|i: int| 0 <= i < u.len() implies #[trigger] u[i] == 46 || 48 <= u[i] <= 57 by {
            if i < u.len() - 1 {
                assert(u[i] == t[i]);
            }
        }
    }
}

/// Parsing the dotted-decimal text of four octets gives them back; the
/// text meets `parse_endpoint`'s requirements.
pub proof fn lemma_parse_dotted_quad(a: u8, b: u8, c: u8, d: u8)
    ensures
        digits_and_dots(dotted_quad(a, b, c, d)),
        no_byte_below_digits(dotted_quad(a, b, c, d)),
        dot_count(dotted_quad(a, b, c, d)) == 3,
        parse_octets(dotted_quad(a, b, c, d)) == seq![a, b, c, d],
{
    let e = Seq::<u8>::empty();
    let dot = seq![46u8];
    let z = seq![0u8, 0u8, 0u8, 0u8];
    assert(parse_state(e) == (z, 0int, 0u32));
    assert(digits_and_dots(e));
    lemma_parse_decimal(e, a as nat);
    let t1 = e + decimal(a as nat);
    assert(parse_state(t1) == (z, 0int, a as u32));
    lemma_parse_dot(t1);
    let t2 = t1 + dot;
    let o1 = z.update(0, a);
    assert(parse_state(t2) == (o1, 1int, 0u32));
    lemma_parse_decimal(t2, b as nat);
    let t3 = t2 + decimal(b as nat);
    assert(parse_state(t3) == (o1, 1int, b as u32));
    lemma_parse_dot(t3);
    let t4 = t3 + dot;
    let o2 = o1.update(1, b);
    assert(parse_state(t4) == (o2, 2int, 0u32));
    lemma_parse_decimal(t4, c as nat);
    let t5 = t4 + decimal(c as nat);
    assert(parse_state(t5) == (o2, 2int, c as u32));
    lemma_parse_dot(t5);
    let t6 = t5 + dot;
    let o3 = o2.update(2, c);
    assert(parse_state(t6) == (o3, 3int, 0u32));
    lemma_parse_decimal(t6, d as nat);
    let t7 = t6 + decimal(d as nat);
    assert(parse_state(t7) == (o3, 3int, d as u32));
    assert(e + decimal(a as nat) =~= decimal(a as nat));
    assert(t7 =~= dotted_quad(a, b, c, d));
    assert(o3.update(3, d) =~= seq![a, b, c, d]);
}

} // verus!
