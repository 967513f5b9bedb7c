//! The wire format of the typed request bridge.
//!
//! A request `{"id": N}` goes out; a response `{"id": N, "status": "S"}` comes
//! back. Both travel as UTF-8 JSON bytes. The encoder produces exactly the
//! canonical text for a value; the decoder accepts a body exactly when it is
//! the canonical text of some value, and then returns that value — so a decode
//! can never hand back a reshaped or partially-read response.

use vstd::prelude::*;
use vstd::arithmetic::div_mod::lemma_fundamental_div_mod;

verus! {

/// `{` `"` `i` `d` `"` `:` ` ` — how every message starts.
pub open spec fn lit_head() -> Seq<u8> {
    seq![123u8, 34u8, 105u8, 100u8, 34u8, 58u8, 32u8]
}

/// `,` ` ` `"` `s` `t` `a` `t` `u` `s` `"` `:` ` ` `"` — between the id and
/// the status text of a response.
pub open spec fn lit_mid() -> Seq<u8> {
    seq![44u8, 32u8, 34u8, 115u8, 116u8, 97u8, 116u8, 117u8, 115u8, 34u8, 58u8, 32u8, 34u8]
}

/// `"` `}` — how a response ends.
pub open spec fn lit_tail() -> Seq<u8> {
    seq![34u8, 125u8]
}

/// An ASCII decimal digit.
pub open spec fn is_digit(b: u8) -> bool {
    48 <= b <= 57
}

/// The digit byte for one decimal place.
pub open spec fn digit_byte(d: nat) -> u8 {
    (48 + d) as u8
}

/// The decimal place a digit byte stands for.
pub open spec fn digit_val(b: u8) -> nat {
    (b - 48) as nat
}

/// The canonical decimal digits of `n`: no sign, no leading zero.
pub open spec fn dec_digits(n: nat) -> Seq<u8>
    decreases n,
{
    if n < 10 {
        seq![digit_byte(n)]
    } else {
        dec_digits(n / 10).push(digit_byte(n % 10))
    }
}

/// The number a digit string denotes, most significant digit first.
pub open spec fn dec_val(s: Seq<u8>) -> nat
    decreases s.len(),
{
    if s.len() == 0 {
        0
    } else {
        dec_val(s.drop_last()) * 10 + digit_val(s.last())
    }
}

/// A byte the status text may carry: printable ASCII, no quote, no backslash,
/// so the text needs no escaping inside its JSON quotes.
pub open spec fn status_byte_ok(b: u8) -> bool {
    32 <= b < 127 && b != 34 && b != 92
}

/// A status text fit for the wire.
pub open spec fn status_ok(st: Seq<u8>) -> bool {
    forall|k: int| 0 <= k < st.len() ==> status_byte_ok(st[k])
}

/// The canonical request text `{"id": N}`.
pub open spec fn spec_encode_request(id: nat) -> Seq<u8> {
    lit_head() + dec_digits(id) + seq![125u8]
}

/// The canonical response text `{"id": N, "status": "S"}`.
pub open spec fn spec_encode_response(id: nat, st: Seq<u8>) -> Seq<u8> {
    lit_head() + dec_digits(id) + lit_mid() + st + lit_tail()
}

/// The outbound value of the typed pair.
pub struct EchoRequest {
    pub id: u64,
}

/// The inbound value of the typed pair.
pub struct EchoResponse {
    pub id: u64,
    pub status: Vec<u8>,
}

impl EchoResponse {
    /// The status text can travel unescaped.
    pub open spec fn wf(self) -> bool {
        status_ok(self.status@)
    }
}

/// Every number prints to at least one digit, and to nothing but digits.
pub proof fn lemma_dec_digits_digits(n: nat)
    ensures
        dec_digits(n).len() >= 1,
        forall|k: int| 0 <= k < dec_digits(n).len() ==> is_digit(#[trigger] dec_digits(n)[k]),
    decreases n,
{
    if n < 10 {
    } else {
        lemma_dec_digits_digits(n / 10);
    }
}

/// Reading the canonical digits of `n` back gives `n`.
pub proof fn lemma_dec_val_of_digits(n: nat)
    ensures
        dec_val(dec_digits(n)) == n,
    decreases n,
{
    if n < 10 {
        assert(dec_digits(n).drop_last() =~= Seq::<u8>::empty());
        assert(dec_digits(n).last() == digit_byte(n));
        assert(digit_val(digit_byte(n)) == n);
        assert(dec_val(Seq::<u8>::empty()) == 0);
        assert(dec_val(dec_digits(n)) == dec_val(dec_digits(n).drop_last()) * 10 + digit_val(
            dec_digits(n).last(),
        ));
    } else {
        lemma_dec_val_of_digits(n / 10);
        assert(dec_digits(n).drop_last() =~= dec_digits(n / 10));
        assert(dec_digits(n).last() == digit_byte(n % 10));
        assert(digit_val(digit_byte(n % 10)) == n % 10);
        lemma_fundamental_div_mod(n as int, 10);
        assert(dec_val(dec_digits(n)) == dec_val(dec_digits(n / 10)) * 10 + digit_val(
            digit_byte(n % 10),
        ));
        assert(dec_val(dec_digits(n)) == (n / 10) * 10 + n % 10);
    }
}

/// A longer digit prefix never denotes a smaller number.
proof fn lemma_dec_val_prefix_le(d: Seq<u8>, j: int, k: int)
    requires
        0 <= j <= k <= d.len(),
    ensures
        dec_val(d.subrange(0, j)) <= dec_val(d.subrange(0, k)),
    decreases k - j,
{
    if j < k {
        lemma_dec_val_prefix_le(d, j, k - 1);
        assert(d.subrange(0, k).drop_last() =~= d.subrange(0, k - 1));
        assert(dec_val(d.subrange(0, k)) == dec_val(d.subrange(0, k - 1)) * 10 + digit_val(
            d.subrange(0, k).last(),
        ));
    }
}

/// Where each part of a canonical response text sits.
proof fn lemma_encoding_layout(id: nat, st: Seq<u8>, s: Seq<u8>)
    requires
        s == spec_encode_response(id, st),
    ensures
        s.len() == 22 + dec_digits(id).len() + st.len(),
        s.subrange(0, 7) == lit_head(),
        s.subrange(7, 7 + dec_digits(id).len() as int) == dec_digits(id),
        forall|k: int| 7 <= k < 7 + dec_digits(id).len() ==> is_digit(s[k]),
        s[7 + dec_digits(id).len() as int] == 44,
        !is_digit(s[7 + dec_digits(id).len() as int]),
        s.subrange(7 + dec_digits(id).len() as int, 20 + dec_digits(id).len() as int) == lit_mid(),
        s.subrange(
            20 + dec_digits(id).len() as int,
            20 + dec_digits(id).len() + st.len() as int,
        ) == st,
        s[20 + dec_digits(id).len() + st.len() as int] == 34,
        s[21 + dec_digits(id).len() + st.len() as int] == 125,
{
    lemma_dec_digits_digits(id);
    let dl = dec_digits(id).len() as int;
    let sl = st.len() as int;
    assert(s.subrange(0, 7) =~= lit_head());
    assert(s.subrange(7, 7 + dl) =~= dec_digits(id));
    assert forall|k: int| 7 <= k < 7 + dl implies is_digit(s[k]) by {
        assert(s[k] == dec_digits(id)[k - 7]);
    }
    assert(s.subrange(7 + dl, 20 + dl) =~= lit_mid());
    assert(s[7 + dl] == lit_mid()[0]);
    assert(s.subrange(20 + dl, 20 + dl + sl) =~= st);
    assert(s[20 + dl + sl] == lit_tail()[0]);
    assert(s[21 + dl + sl] == lit_tail()[1]);
}

/// Two values with the same canonical response text are the same value: the
/// decoder can never confuse one response for another.
pub proof fn lemma_encode_response_injective(id1: nat, st1: Seq<u8>, id2: nat, st2: Seq<u8>)
    requires
        spec_encode_response(id1, st1) == spec_encode_response(id2, st2),
    ensures
        id1 == id2,
        st1 == st2,
{
    let s = spec_encode_response(id1, st1);
    lemma_encoding_layout(id1, st1, s);
    lemma_encoding_layout(id2, st2, s);
    let dl1 = dec_digits(id1).len() as int;
    let dl2 = dec_digits(id2).len() as int;
    if dl1 < dl2 {
        assert(is_digit(s[7 + dl1]));
        assert(false);
    }
    if dl2 < dl1 {
        assert(is_digit(s[7 + dl2]));
        assert(false);
    }
    assert(dec_digits(id1) =~= dec_digits(id2));
    lemma_dec_val_of_digits(id1);
    lemma_dec_val_of_digits(id2);
    assert(st1 =~= st2);
}

/// What a response body decodes to, if anything: the unique value whose
/// canonical text the body is.
pub open spec fn spec_decode_response(s: Seq<u8>) -> Option<(nat, Seq<u8>)> {
    if exists|p: (nat, Seq<u8>)|
        p.0 <= u64::MAX && status_ok(p.1) && s == spec_encode_response(p.0, p.1) {
        Some(
            choose|p: (nat, Seq<u8>)|
                p.0 <= u64::MAX && status_ok(p.1) && s == spec_encode_response(p.0, p.1),
        )
    } else {
        None
    }
}

/// The typed round trip: a body that an endpoint encoded from a value decodes
/// to exactly that value — never to a reshaped or partially-read one.
pub proof fn lemma_response_round_trip(id: nat, st: Seq<u8>)
    requires
        id <= u64::MAX,
        status_ok(st),
    ensures
        spec_decode_response(spec_encode_response(id, st)) == Some((id, st)),
{
    let s = spec_encode_response(id, st);
    let w: (nat, Seq<u8>) = (id, st);
    assert(w.0 <= u64::MAX && status_ok(w.1) && s == spec_encode_response(w.0, w.1));
    let p = choose|p: (nat, Seq<u8>)|
        p.0 <= u64::MAX && status_ok(p.1) && s == spec_encode_response(p.0, p.1);
    lemma_encode_response_injective(p.0, p.1, id, st);
}

/// The same two calls give the same two texts: the codec is a function of the
/// values alone, with no cache or session state for a repeated call to see.
pub proof fn lemma_codec_stateless(id1: nat, id2: nat, st1: Seq<u8>, st2: Seq<u8>)
    requires
        id1 == id2,
        st1 == st2,
    ensures
        spec_encode_request(id1) == spec_encode_request(id2),
        spec_encode_response(id1, st1) == spec_encode_response(id2, st2),
{
}

/// `{"id": ` as bytes.
fn lit_head_vec() -> (v: Vec<u8>)
    ensures
        v@ == lit_head(),
{
    let mut v: Vec<u8> = Vec::new();
    v.push(123);
    v.push(34);
    v.push(105);
    v.push(100);
    v.push(34);
    v.push(58);
    v.push(32);
    proof {
        assert(v@ =~= lit_head());
    }
    v
}

/// `, "status": "` as bytes.
fn lit_mid_vec() -> (v: Vec<u8>)
    ensures
        v@ == lit_mid(),
{
    let mut v: Vec<u8> = Vec::new();
    v.push(44);
    v.push(32);
    v.push(34);
    v.push(115);
    v.push(116);
    v.push(97);
    v.push(116);
    v.push(117);
    v.push(115);
    v.push(34);
    v.push(58);
    v.push(32);
    v.push(34);
    proof {
        assert(v@ =~= lit_mid());
    }
    v
}

/// Appends the canonical decimal digits of `n`.
fn push_dec(out: &mut Vec<u8>, n: u64)
    ensures
        final(out)@ == old(out)@ + dec_digits(n as nat),
    decreases n,
{
    if n < 10 {
        out.push(48 + (n as u8));
        proof {
            assert(final(out)@ =~= old(out)@ + dec_digits(n as nat));
        }
    } else {
        proof {
            assert(n / 10 < n) by (nonlinear_arith)
                requires n >= 10,
            ;
        }
        push_dec(out, n / 10);
        out.push(48 + ((n % 10) as u8));
        proof {
            assert(final(out)@ =~= old(out)@ + dec_digits(n as nat));
        }
    }
}

/// Encodes a request to its canonical JSON text.
pub fn encode_request(r: &EchoRequest) -> (out: Vec<u8>)
    ensures
        out@ == spec_encode_request(r.id as nat),
{
    let mut out = lit_head_vec();
    push_dec(&mut out, r.id);
    out.push(125);
    proof {
        assert(out@ =~= spec_encode_request(r.id as nat));
    }
    out
}

/// Encodes a response to its canonical JSON text. The status text must be
/// printable ASCII without quote or backslash (`wf`): this wire format
/// carries it between its quotes unescaped.
pub fn encode_response(v: &EchoResponse) -> (out: Vec<u8>)
    requires
        v.wf(),
    ensures
        out@ == spec_encode_response(v.id as nat, v.status@),
{
    let mut out = lit_head_vec();
    push_dec(&mut out, v.id);
    let mid = lit_mid_vec();
    out.extend_from_slice(mid.as_slice());
    let ghost base = lit_head() + dec_digits(v.id as nat) + lit_mid();
    let mut k: usize = 0;
    while k < v.status.len()
        invariant
            0 <= k <= v.status@.len(),
            out@ == base + v.status@.subrange(0, k as int),
        decreases v.status@.len() - k,
    {
        out.push(v.status[k]);
        proof {
            assert(v.status@.subrange(0, k + 1) =~= v.status@.subrange(0, k as int).push(
                v.status@[k as int],
            ));
            assert(out@ =~= base + v.status@.subrange(0, k + 1));
        }
        k = k + 1;
    }
    proof {
        assert(v.status@.subrange(0, v.status@.len() as int) =~= v.status@);
    }
    out.push(34);
    out.push(125);
    proof {
        assert(out@ =~= spec_encode_response(v.id as nat, v.status@));
    }
    out
}

/// True exactly when `pat` occurs in `s` at position `pos`.
fn has_seq_at(s: &[u8], pos: usize, pat: &Vec<u8>) -> (b: bool)
    ensures
        b == (pos + pat@.len() <= s@.len() && s@.subrange(
            pos as int,
            pos + pat@.len() as int,
        ) == pat@),
{
    if pos > s.len() {
        return false;
    }
    if pat.len() > s.len() - pos {
        return false;
    }
    let mut k: usize = 0;
    while k < pat.len()
        invariant
            0 <= k <= pat@.len(),
            pos + pat@.len() <= s@.len(),
            s@.len() <= usize::MAX,
            forall|t: int| 0 <= t < k ==> s@[pos + t] == pat@[t],
        decreases pat@.len() - k,
    {
        if s[pos + k] != pat[k] {
            proof {
                assert(s@.subrange(pos as int, pos + pat@.len() as int)[k as int] == s@[pos + k]);
            }
            return false;
        }
        k = k + 1;
    }
    proof {
        assert(s@.subrange(pos as int, pos + pat@.len() as int) =~= pat@);
    }
    true
}

/// True exactly when the two byte strings are equal.
fn bytes_equal(a: &[u8], b: &[u8]) -> (r: bool)
    ensures
        r == (a@ == b@),
{
    if a.len() != b.len() {
        return false;
    }
    let mut k: usize = 0;
    while k < a.len()
        invariant
            0 <= k <= a@.len(),
            a@.len() == b@.len(),
            forall|t: int| 0 <= t < k ==> a@[t] == b@[t],
        decreases a@.len() - k,
    {
        if a[k] != b[k] {
            return false;
        }
        k = k + 1;
    }
    proof {
        assert(a@ =~= b@);
    }
    true
}

/// After a greedy digit scan that started at byte 7 of a canonical response
/// text, the scan stops exactly at the end of the id's digits.
proof fn lemma_scan_aligns(id: nat, st: Seq<u8>, s: Seq<u8>, i: int)
    requires
        s == spec_encode_response(id, st),
        7 <= i <= s.len(),
        forall|k: int| 7 <= k < i ==> is_digit(s[k]),
        i == s.len() || !is_digit(s[i]),
    ensures
        i == 7 + dec_digits(id).len(),
{
    lemma_encoding_layout(id, st, s);
    let dl = dec_digits(id).len() as int;
    if i < 7 + dl {
        assert(is_digit(s[i]));
        assert(false);
    }
    if i > 7 + dl {
        assert(is_digit(s[7 + dl]));
        assert(false);
    }
}

/// Decodes a response body. Returns the value whose canonical text the body
/// is, and `None` exactly when the body is no value's canonical text.
#[verifier::loop_isolation(false)]
#[verifier::rlimit(100)]
#[verifier::spinoff_prover]
pub fn decode_response(s: &[u8]) -> (r: Option<EchoResponse>)
    ensures
        match r {
            Some(v) => v.wf() && s@ == spec_encode_response(v.id as nat, v.status@),
            None => forall|id: nat, st: Seq<u8>|
                id <= u64::MAX && status_ok(st) ==> s@ != spec_encode_response(id, st),
        },
{
    let head = lit_head_vec();
    if !has_seq_at(s, 0, &head) {
        proof {
            assert forall|id: nat, st: Seq<u8>|
                id <= u64::MAX && status_ok(st) implies s@ != spec_encode_response(id, st) by {
                if s@ == spec_encode_response(id, st) {
                    lemma_encoding_layout(id, st, s@);
                }
            }
        }
        return None;
    }
    let mut i: usize = 7;
    let mut val: u64 = 0;
    while i < s.len() && 48 <= s[i] && s[i] <= 57
        invariant
            7 <= i <= s@.len(),
            forall|k: int| 7 <= k < i ==> is_digit(s@[k]),
            val as nat == dec_val(s@.subrange(7, i as int)),
        decreases s@.len() - i,
    {
        let d: u8 = s[i] - 48;
        proof {
            assert(s@.subrange(7, i + 1).drop_last() =~= s@.subrange(7, i as int));
            assert(s@.subrange(7, i + 1).last() == s@[i as int]);
        }
        let m = match val.checked_mul(10) {
            Some(m) => m,
            None => {
                proof {
                    assert forall|id: nat, st: Seq<u8>|
                        id <= u64::MAX && status_ok(st) implies s@ != spec_encode_response(
                        id,
                        st,
                    ) by {
                        if s@ == spec_encode_response(id, st) {
                            lemma_encoding_layout(id, st, s@);
                            let dl = dec_digits(id).len() as int;
                            assert(i < 7 + dl) by {
                                if i >= 7 + dl {
                                    assert(is_digit(s@[7 + dl]));
                                }
                            }
                            assert(s@.subrange(7, i + 1) =~= dec_digits(id).subrange(0, i + 1 - 7));
                            lemma_dec_val_prefix_le(dec_digits(id), i + 1 - 7, dl);
                            assert(dec_digits(id).subrange(0, dl) =~= dec_digits(id));
                            lemma_dec_val_of_digits(id);
                            assert(dec_val(s@.subrange(7, i + 1)) <= id);
                            assert(dec_val(s@.subrange(7, i + 1)) == val as nat * 10 + digit_val(
                                s@[i as int],
                            ));
                        }
                    }
                }
                return None;
            },
        };
        let v2 = match m.checked_add(d as u64) {
            Some(v2) => v2,
            None => {
                proof {
                    assert forall|id: nat, st: Seq<u8>|
                        id <= u64::MAX && status_ok(st) implies s@ != spec_encode_response(
                        id,
                        st,
                    ) by {
                        if s@ == spec_encode_response(id, st) {
                            lemma_encoding_layout(id, st, s@);
                            let dl = dec_digits(id).len() as int;
                            assert(i < 7 + dl) by {
                                if i >= 7 + dl {
                                    assert(is_digit(s@[7 + dl]));
                                }
                            }
                            assert(s@.subrange(7, i + 1) =~= dec_digits(id).subrange(0, i + 1 - 7));
                            lemma_dec_val_prefix_le(dec_digits(id), i + 1 - 7, dl);
                            assert(dec_digits(id).subrange(0, dl) =~= dec_digits(id));
                            lemma_dec_val_of_digits(id);
                            assert(dec_val(s@.subrange(7, i + 1)) <= id);
                            assert(dec_val(s@.subrange(7, i + 1)) == val as nat * 10 + digit_val(
                                s@[i as int],
                            ));
                        }
                    }
                }
                return None;
            },
        };
        val = v2;
        i = i + 1;
    }
    if i == 7 {
        proof {
            assert forall|id: nat, st: Seq<u8>|
                id <= u64::MAX && status_ok(st) implies s@ != spec_encode_response(id, st) by {
                if s@ == spec_encode_response(id, st) {
                    lemma_encoding_layout(id, st, s@);
                    assert(is_digit(s@[7]));
                }
            }
        }
        return None;
    }
    let mid = lit_mid_vec();
    if !has_seq_at(s, i, &mid) {
        proof {
            assert forall|id: nat, st: Seq<u8>|
                id <= u64::MAX && status_ok(st) implies s@ != spec_encode_response(id, st) by {
                if s@ == spec_encode_response(id, st) {
                    lemma_scan_aligns(id, st, s@, i as int);
                    lemma_encoding_layout(id, st, s@);
                }
            }
        }
        return None;
    }
    proof {
        assert(s@[i as int] == s@.subrange(i as int, i + 13)[0]);
        assert(!is_digit(s@[i as int]));
    }
    let st_start: usize = i + 13;
    let mut j: usize = st_start;
    let mut status: Vec<u8> = Vec::new();
    while j < s.len() && s[j] != 34
        invariant
            st_start <= j <= s@.len(),
            st_start == i + 13,
            status@ == s@.subrange(st_start as int, j as int),
            status_ok(status@),
            forall|k: int| st_start <= k < j ==> s@[k] != 34,
        decreases s@.len() - j,
    {
        let b = s[j];
        if !(32 <= b && b < 127 && b != 92) {
            proof {
                assert forall|id: nat, st: Seq<u8>|
                    id <= u64::MAX && status_ok(st) implies s@ != spec_encode_response(id, st) by {
                    if s@ == spec_encode_response(id, st) {
                        lemma_scan_aligns(id, st, s@, i as int);
                        lemma_encoding_layout(id, st, s@);
                        let base = st_start as int;
                        let quote_at = base + st.len() as int;
                        assert(j < quote_at) by {
                            if j >= quote_at {
                                assert(s@[quote_at] == 34);
                            }
                        }
                        assert(s@[j as int] == st[j - base]);
                        assert(status_byte_ok(st[j - base]));
                    }
                }
            }
            return None;
        }
        status.push(b);
        proof {
            assert(s@.subrange(st_start as int, j + 1) =~= s@.subrange(st_start as int, j as int)
                .push(s@[j as int]));
        }
        j = j + 1;
    }
    if j >= s.len() {
        proof {
            assert forall|id: nat, st: Seq<u8>|
                id <= u64::MAX && status_ok(st) implies s@ != spec_encode_response(id, st) by {
                if s@ == spec_encode_response(id, st) {
                    lemma_scan_aligns(id, st, s@, i as int);
                    lemma_encoding_layout(id, st, s@);
                    let quote_at = st_start as int + st.len() as int;
                    assert(s@[quote_at] == 34);
                }
            }
        }
        return None;
    }
    if s.len() - j != 2 {
        proof {
            assert forall|id: nat, st: Seq<u8>|
                id <= u64::MAX && status_ok(st) implies s@ != spec_encode_response(id, st) by {
                if s@ == spec_encode_response(id, st) {
                    lemma_scan_aligns(id, st, s@, i as int);
                    lemma_encoding_layout(id, st, s@);
                    let quote_at = st_start as int + st.len() as int;
                    assert(j == quote_at) by {
                        if j < quote_at {
                            assert(s@[j as int] == st[j - st_start]);
                            assert(status_byte_ok(st[j - st_start]));
                        }
                        if j > quote_at {
                            assert(s@[quote_at] == 34);
                        }
                    }
                }
            }
        }
        return None;
    }
    if s[j + 1] != 125 {
        proof {
            assert forall|id: nat, st: Seq<u8>|
                id <= u64::MAX && status_ok(st) implies s@ != spec_encode_response(id, st) by {
                if s@ == spec_encode_response(id, st) {
                    lemma_scan_aligns(id, st, s@, i as int);
                    lemma_encoding_layout(id, st, s@);
                    let quote_at = st_start as int + st.len() as int;
                    assert(j == quote_at) by {
                        if j < quote_at {
                            assert(s@[j as int] == st[j - st_start]);
                            assert(status_byte_ok(st[j - st_start]));
                        }
                        if j > quote_at {
                            assert(s@[quote_at] == 34);
                        }
                    }
                    assert(s@[j + 1] == 125);
                }
            }
        }
        return None;
    }
    let resp = EchoResponse { id: val, status };
    let enc = encode_response(&resp);
    if bytes_equal(enc.as_slice(), s) {
        Some(resp)
    } else {
        proof {
            assert forall|id: nat, st: Seq<u8>|
                id <= u64::MAX && status_ok(st) implies s@ != spec_encode_response(id, st) by {
                if s@ == spec_encode_response(id, st) {
                    lemma_scan_aligns(id, st, s@, i as int);
                    lemma_encoding_layout(id, st, s@);
                    let dl = dec_digits(id).len() as int;
                    assert(s@.subrange(7, i as int) =~= dec_digits(id));
                    lemma_dec_val_of_digits(id);
                    assert(val as nat == id);
                    let quote_at = st_start as int + st.len() as int;
                    assert(j == quote_at) by {
                        if j < quote_at {
                            assert(s@[j as int] == st[j - st_start]);
                            assert(status_byte_ok(st[j - st_start]));
                        }
                        if j > quote_at {
                            assert(s@[quote_at] == 34);
                        }
                    }
                    assert(resp.status@ =~= st);
                    assert(enc@ == s@);
                }
            }
        }
        None
    }
}

} // verus!
