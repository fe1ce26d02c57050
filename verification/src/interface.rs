//! The control interface: what a client may ask of the controller.
//!
//! A client sets the setpoint or reads the current estimate. It has no other
//! access to the control state.

use crate::decimal::{
    clamped_fraction, digits_end, fixed_text, is_infinity_word, is_negative, lower, millionths,
    numeral, parse_fraction, push_fixed, round_half_even, rounded, sign_len, written_number,
    Numeral,
};
use crate::state::{clamp_setpoint, ControlState, FULL_POWER};
use vstd::prelude::*;
use vstd::slice::slice_subrange;
use vstd::string::{is_ascii, is_ascii_spec_bytes, StringSliceAdditionalSpecFns};
use vstd::utf8::encode_utf8;

verus! {

/// The character `?`, which separates a request's path from its query.
pub const QUESTION_MARK: u8 = 0x3F;

/// The setpoint that a request value asks for, in millionths: none at all for
/// the word `off`, else the fraction that the value writes, clamped to the
/// range from zero to one. `None` where the value is neither.
pub open spec fn requested_setpoint(value: Seq<u8>) -> Option<u32> {
    if value == "off".spec_bytes() {
        Some(0)
    } else {
        clamped_fraction(value)
    }
}

/// The setpoint once a request has been applied: the requested one, clamped,
/// or the setpoint as it was where nothing is requested.
pub open spec fn setpoint_after(before: u32, request: Option<u32>) -> int {
    match request {
        Some(setpoint) => clamp_setpoint(setpoint as int),
        None => before as int,
    }
}

/// The word `off` writes no number, so a request value is of one kind only.
pub proof fn lemma_off_is_no_number()
    ensures
        numeral("off".spec_bytes()) is None,
        clamped_fraction("off".spec_bytes()) is None,
{
    reveal_strlit("off");
    reveal_strlit("inf");
    reveal_strlit("infinity");
    let off = "off".spec_bytes();
    assert(is_ascii("off") && is_ascii("inf") && is_ascii("infinity"));
    is_ascii_spec_bytes("off");
    is_ascii_spec_bytes("inf");
    is_ascii_spec_bytes("infinity");
    assert(off.len() == 3 && off[0] == 0x6F && off[1] == 0x66 && off[2] == 0x66);
    assert(sign_len(off) == 0);
    let body = off.skip(0);
    assert(body =~= off);
    assert(!is_infinity_word(body)) by {
        assert("inf".spec_bytes()[0] == 0x69);
        assert(lower(body[0]) == 0x6F);
    }
    assert(digits_end(body, 0) == 0);
    assert(body.subrange(0, 0) + body.subrange(0, 0) =~= Seq::<u8>::empty());
    assert(written_number(body) is None);
}

/// A request value asks for a setpoint between no power and full power, if
/// it asks for one.
pub proof fn lemma_requested_setpoint_in_range(value: Seq<u8>)
    ensures
        requested_setpoint(value) matches Some(setpoint) ==> 0 <= setpoint <= FULL_POWER,
{
}

/// A request value that writes a finite number asks for that number, clamped
/// to the range from no power to full power.
pub proof fn lemma_number_request_is_clamped(value: Seq<u8>, digits: Seq<u8>, exponent: int)
    requires
        numeral(value) == Some(Numeral::Finite { digits, exponent }),
    ensures
        !is_negative(value) ==> requested_setpoint(value) == Some(
            clamp_setpoint(millionths(digits, exponent) as int) as u32,
        ),
        is_negative(value) ==> requested_setpoint(value) == Some(
            clamp_setpoint(-millionths(digits, exponent)) as u32,
        ),
{
    lemma_off_is_no_number();
}

/// A request value that is neither the word `off` nor a written number
/// leaves the setpoint as it was.
pub proof fn lemma_unreadable_request_keeps_setpoint(before: u32, value: Seq<u8>)
    requires
        value != "off".spec_bytes(),
        numeral(value) is None,
    ensures
        setpoint_after(before, requested_setpoint(value)) == before,
{
}

/// The two byte strings hold the same bytes.
fn same_bytes(a: &[u8], b: &[u8]) -> (same: bool)
    ensures
        same == (a@ == b@),
{
    if a.len() != b.len() {
        return false;
    }
    let mut i: usize = 0;
    while i < a.len()
        invariant
            i <= a@.len() == b@.len(),
            forall|j: int| 0 <= j < i ==> a@[j] == b@[j],
        decreases a@.len() - i,
    {
        if a[i] != b[i] {
            return false;
        }
        i += 1;
    }
    assert(a@ =~= b@);
    true
}

/// Reads a request value: the word `off`, or a written number as
/// [`parse_fraction`] reads it.
pub fn parse_setpoint_request(value: &str) -> (request: Option<u32>)
    ensures
        request == requested_setpoint(value.spec_bytes()),
        request matches Some(setpoint) ==> setpoint <= FULL_POWER,
{
    let bytes = value.as_bytes();
    if same_bytes(bytes, "off".as_bytes()) {
        Some(0)
    } else {
        parse_fraction(bytes)
    }
}

/// Applies a request that has been read and returns the setpoint now in
/// effect, in millionths. Where nothing is requested the state stays as it
/// is. The current estimate is never touched.
///
/// This is all that a setpoint request does to the shared state: where the
/// state lies behind a lock, the lock is held for this call and no longer.
pub fn apply_request(state: &mut ControlState, request: Option<u32>) -> (setpoint: u32)
    ensures
        final(state)@.setpoint == setpoint_after(old(state)@.setpoint, request),
        final(state)@.current_rms == old(state)@.current_rms,
        setpoint == final(state)@.setpoint,
{
    match request {
        Some(wanted) => state.set_setpoint(wanted as i64),
        None => {},
    }
    state.read().setpoint
}

/// Applies a setpoint request and returns the setpoint now in effect, in
/// millionths.
///
/// The value is the word `off` or a written number. Any other value changes
/// nothing.
pub fn apply_setpoint_request(state: &mut ControlState, value: &str) -> (setpoint: u32)
    ensures
        match requested_setpoint(value.spec_bytes()) {
            Some(wanted) => final(state)@.setpoint == wanted,
            None => final(state)@.setpoint == old(state)@.setpoint,
        },
        final(state)@.current_rms == old(state)@.current_rms,
        setpoint == final(state)@.setpoint,
{
    apply_request(state, parse_setpoint_request(value))
}

/// The current estimate, in microamperes.
pub fn read_telemetry(state: &ControlState) -> (rms: u32)
    ensures
        rms == state@.current_rms,
{
    state.read().current_rms
}

/// The index of the first `byte` of `text` at or after `from`; the length of
/// `text` where there is none.
pub open spec fn find_byte(text: Seq<u8>, byte: u8, from: int) -> int
    decreases text.len() - from,
{
    if 0 <= from < text.len() && text[from] != byte {
        find_byte(text, byte, from + 1)
    } else {
        from
    }
}

/// The query of a request target: what follows its first question mark,
/// nothing where it has none.
pub open spec fn query_of(uri: Seq<u8>) -> Seq<u8> {
    let mark = find_byte(uri, QUESTION_MARK, 0);
    if mark < uri.len() {
        uri.skip(mark + 1)
    } else {
        Seq::empty()
    }
}

/// The value of the last pair of `pairs` whose name is `name`.
pub open spec fn last_value_of(pairs: Seq<(Seq<char>, Seq<char>)>, name: Seq<char>) -> Option<
    Seq<char>,
>
    decreases pairs.len(),
{
    if pairs.len() == 0 {
        None
    } else if pairs.last().0 == name {
        Some(pairs.last().1)
    } else {
        last_value_of(pairs.drop_last(), name)
    }
}

/// The setpoint that the pairs of a query ask for: what the value of the last
/// pair named `p` asks for. A later `p` overrides an earlier one even where
/// its value asks for nothing.
pub open spec fn power_request(pairs: Seq<(Seq<char>, Seq<char>)>) -> Option<u32> {
    match last_value_of(pairs, "p"@) {
        Some(value) => requested_setpoint(encode_utf8(value)),
        None => None,
    }
}

/// The answer to a setpoint request: the setpoint in effect, to two places.
pub open spec fn setpoint_text(setpoint: u32) -> Seq<u8> {
    "setpoint=".spec_bytes() + fixed_text(round_half_even(setpoint as nat, 10_000), 2)
}

/// The answer to a telemetry request: the current estimate in amperes, to
/// three places.
pub open spec fn telemetry_text(rms: u32) -> Seq<u8> {
    "{\"rms_current\":".spec_bytes() + fixed_text(round_half_even(rms as nat, 1000), 3)
        + "}".spec_bytes()
}

/// The name-value pairs that a query in the `application/x-www-form-urlencoded`
/// syntax holds, in the order in which it holds them, names and values
/// decoded.
///
/// This is what `url::form_urlencoded::parse` yields for the query. Nothing
/// is stated of it here but that the query alone decides it.
pub uninterp spec fn form_pairs(query: Seq<u8>) -> Seq<(Seq<char>, Seq<char>)>;

/// Calls `url::form_urlencoded::parse` on the query and collects the pairs
/// that its iterator yields, as owned strings. The contract only names the
/// result: it is `form_pairs` of the query.
#[verifier::external_body]
fn decode_form(query: &[u8]) -> (pairs: Vec<(String, String)>)
    ensures
        pairs.deep_view() == form_pairs(query@),
{
    url::form_urlencoded::parse(query).into_owned().collect()
}

/// Appends `bytes` to `out`.
fn push_bytes(out: &mut Vec<u8>, bytes: &[u8])
    ensures
        final(out)@ == old(out)@ + bytes@,
{
    let mut i: usize = 0;
    while i < bytes.len()
        invariant
            i <= bytes@.len(),
            out@ == old(out)@ + bytes@.take(i as int),
        decreases bytes@.len() - i,
    {
        out.push(bytes[i]);
        assert(bytes@.take(i + 1) =~= bytes@.take(i as int).push(bytes@[i as int]));
        i += 1;
    }
    assert(bytes@.take(bytes@.len() as int) =~= bytes@);
}

/// Cuts the query out of a request target.
pub fn query_of_uri(uri: &[u8]) -> (query: &[u8])
    ensures
        query@ == query_of(uri@),
{
    let len = uri.len();
    let mut mark: usize = 0;
    while mark < len && uri[mark] != QUESTION_MARK
        invariant
            mark <= len == uri@.len(),
            find_byte(uri@, QUESTION_MARK, 0) == find_byte(uri@, QUESTION_MARK, mark as int),
        decreases len - mark,
    {
        mark += 1;
    }
    if mark < len {
        let query = slice_subrange(uri, mark + 1, len);
        assert(query@ =~= uri@.skip(mark + 1));
        query
    } else {
        let query = slice_subrange(uri, len, len);
        assert(query@ =~= Seq::<u8>::empty());
        query
    }
}

/// Reads the setpoint request that the decoded pairs of a query hold, if they
/// hold one.
pub fn power_request_of_pairs(pairs: &Vec<(String, String)>) -> (request: Option<u32>)
    ensures
        request == power_request(pairs.deep_view()),
{
    let name = "p".to_owned();
    let ghost decoded = pairs.deep_view();
    let mut chosen: Option<usize> = None;
    let mut i: usize = 0;
    while i < pairs.len()
        invariant
            i <= pairs@.len(),
            decoded == pairs.deep_view(),
            name@ == "p"@,
            match chosen {
                Some(k) => k < i && last_value_of(decoded.take(i as int), "p"@) == Some(
                    decoded[k as int].1,
                ),
                None => last_value_of(decoded.take(i as int), "p"@) is None,
            },
        decreases pairs@.len() - i,
    {
        proof {
            let longer = decoded.take(i + 1);
            assert(longer.drop_last() =~= decoded.take(i as int));
            assert(longer.last() == decoded[i as int]);
            assert(decoded[i as int].0 == pairs@[i as int].0@);
        }
        if pairs[i].0 == name {
            chosen = Some(i);
        }
        i += 1;
    }
    assert(decoded.take(i as int) =~= decoded);
    match chosen {
        Some(k) => {
            assert(decoded[k as int].1 == pairs@[k as int].1@);
            parse_setpoint_request(pairs[k].1.as_str())
        },
        None => None,
    }
}

/// Reads the setpoint request that a request target holds in its query, if
/// it holds one.
pub fn power_request_of_uri(uri: &[u8]) -> (request: Option<u32>)
    ensures
        request == power_request(form_pairs(query_of(uri@))),
{
    let pairs = decode_form(query_of_uri(uri));
    power_request_of_pairs(&pairs)
}

/// The body that answers a setpoint request.
pub fn setpoint_body(setpoint: u32) -> (body: Vec<u8>)
    ensures
        body@ == setpoint_text(setpoint),
{
    let mut body: Vec<u8> = Vec::new();
    push_bytes(&mut body, "setpoint=".as_bytes());
    push_fixed(&mut body, rounded(setpoint, 10_000), 2);
    body
}

/// The body that answers a telemetry request.
pub fn telemetry_body(rms: u32) -> (body: Vec<u8>)
    ensures
        body@ == telemetry_text(rms),
{
    let mut body: Vec<u8> = Vec::new();
    push_bytes(&mut body, "{\"rms_current\":".as_bytes());
    push_fixed(&mut body, rounded(rms, 1000), 3);
    push_bytes(&mut body, "}".as_bytes());
    body
}

} // verus!
