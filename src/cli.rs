//! Decisions taken on the daemon's answers: which attribute holds a code id
//! or an address, whether a call failed, which listed code has an id.
use vstd::prelude::*;

use crate::cli_types::{ListCodeResponse, TxQuery, TxQueryKeyValue};

verus! {

/// Whether `pat` occurs in `s`.
pub open spec fn occurs_in(pat: Seq<char>, s: Seq<char>) -> bool {
    exists|i: int| 0 <= i <= s.len() - pat.len() && #[trigger] s.subrange(i, i + pat.len()) == pat
}

/// Relies on `str::contains`: whether `pat` matches a sub-slice of `s`.
#[verifier::external_body]
fn str_contains(s: &str, pat: &str) -> (r: bool)
    ensures
        r == occurs_in(pat@, s@),
{
    s.contains(pat)
}

/// Relies on `String::pop`: removes and returns the last character, if any.
#[verifier::external_body]
fn string_pop(s: &mut String) -> (r: Option<char>)
    ensures
        old(s)@.len() == 0 ==> r is None && final(s)@ == old(s)@,
        old(s)@.len() > 0 ==> r == Some(old(s)@.last()) && final(s)@ == old(s)@.drop_last(),
{
    s.pop()
}

/// The marker that the daemon writes into the log of a failed call.
pub open spec fn failure_marker() -> Seq<char> {
    "failed to execute message"@
}

/// Whether the transaction's log reports a failed contract call.
pub fn assert_handle_failure(tx_query: TxQuery) -> (r: bool)
    ensures
        r == occurs_in(failure_marker(), tx_query.raw_log@),
{
    str_contains(tx_query.raw_log.as_str(), "failed to execute message")
}

/// The value of the first attribute named `key`.
pub open spec fn first_value(attrs: Seq<TxQueryKeyValue>, key: Seq<char>) -> Option<Seq<char>>
    decreases attrs.len(),
{
    if attrs.len() == 0 {
        None
    } else if attrs[0].msg_key@ == key {
        Some(attrs[0].value@)
    } else {
        first_value(attrs.drop_first(), key)
    }
}

/// The attributes of the first event of the first message, where there is one.
pub open spec fn first_event_attributes(q: TxQuery) -> Seq<TxQueryKeyValue> {
    if q.logs@.len() > 0 && q.logs@[0].events@.len() > 0 {
        q.logs@[0].events@[0].attributes@
    } else {
        Seq::empty()
    }
}

/// The value of the first attribute named `key` in the first event of the
/// first message: where a stored code's id, or an instantiated contract's
/// address, is reported.
pub fn event_attribute(query: &TxQuery, key: &str) -> (r: Option<String>)
    ensures
        (match r {
            Some(v) => Some(v@),
            None => None,
        }) == first_value(first_event_attributes(*query), key@),
{
    if query.logs.len() == 0 || query.logs[0].events.len() == 0 {
        return None;
    }
    let attrs = &query.logs[0].events[0].attributes;
    let wanted = key.to_owned();
    let mut i: usize = 0;
    assert(attrs@.subrange(0, attrs@.len() as int) =~= attrs@);
    while i < attrs.len()
        invariant
            i <= attrs@.len(),
            attrs@ == first_event_attributes(*query),
            wanted@ == key@,
            first_value(attrs@, key@) == first_value(attrs@.subrange(i as int, attrs@.len() as int), key@),
        decreases attrs@.len() - i,
    {
        let ghost rest = attrs@.subrange(i as int, attrs@.len() as int);
        assert(rest[0] == attrs@[i as int]);
        if attrs[i].msg_key == wanted {
            return Some(attrs[i].value.clone());
        }
        assert(rest.drop_first() =~= attrs@.subrange(i + 1, attrs@.len() as int));
        i += 1;
    }
    None
}

/// The decimal digits of `n`, most significant first.
pub open spec fn decimal(n: nat) -> Seq<char>
    decreases n,
{
    if n < 10 {
        seq![digit_char(n)]
    } else {
        decimal(n / 10).push(digit_char(n % 10))
    }
}

/// The character of the digit `d`.
pub open spec fn digit_char(d: nat) -> char {
    ((d + 48) as u32) as char
}

fn decimal_chars(n: u128) -> (r: Vec<char>)
    ensures
        r@ == decimal(n as nat),
    decreases n,
{
    let d = (n % 10) as u32;
    let c = char_from_digit(d);
    if n < 10 {
        let mut v: Vec<char> = Vec::new();
        v.push(c);
        v
    } else {
        let mut v = decimal_chars(n / 10);
        v.push(c);
        v
    }
}

fn char_from_digit(d: u32) -> (c: char)
    requires
        d < 10,
    ensures
        c == digit_char(d as nat),
{
    if d == 0 {
        '0'
    } else if d == 1 {
        '1'
    } else if d == 2 {
        '2'
    } else if d == 3 {
        '3'
    } else if d == 4 {
        '4'
    } else if d == 5 {
        '5'
    } else if d == 6 {
        '6'
    } else if d == 7 {
        '7'
    } else if d == 8 {
        '8'
    } else {
        '9'
    }
}

/// Whether `s` is the decimal form of `n`.
fn is_decimal_of(n: u128, s: &str) -> (r: bool)
    ensures
        r == (s@ == decimal(n as nat)),
{
    let digits = decimal_chars(n);
    let len = s.unicode_len();
    if len != digits.len() {
        return false;
    }
    let mut i: usize = 0;
    while i < len
        invariant
            i <= len,
            len == s@.len(),
            digits@.len() == len,
            digits@ == decimal(n as nat),
            forall|k: int| 0 <= k < i ==> s@[k] == digits@[k],
        decreases len - i,
    {
        if s.get_char(i) != digits[i] {
            return false;
        }
        i += 1;
    }
    assert(s@ =~= digits@);
    true
}

/// The hash of the first listed code whose id, written in decimal, is `code_id`.
pub open spec fn first_code_hash(list: Seq<ListCodeResponse>, code_id: Seq<char>) -> Option<
    Seq<char>,
>
    decreases list.len(),
{
    if list.len() == 0 {
        None
    } else if decimal(list[0].code_id as nat) == code_id {
        Some(list[0].code_hash@)
    } else {
        first_code_hash(list.drop_first(), code_id)
    }
}

/// The hash of the listed code with id `code_id`.
pub fn code_hash_for(list: &Vec<ListCodeResponse>, code_id: &str) -> (r: Option<String>)
    ensures
        (match r {
            Some(v) => Some(v@),
            None => None,
        }) == first_code_hash(list@, code_id@),
{
    let mut i: usize = 0;
    assert(list@.subrange(0, list@.len() as int) =~= list@);
    while i < list.len()
        invariant
            i <= list@.len(),
            first_code_hash(list@, code_id@) == first_code_hash(
                list@.subrange(i as int, list@.len() as int),
                code_id@,
            ),
        decreases list@.len() - i,
    {
        let ghost rest = list@.subrange(i as int, list@.len() as int);
        assert(rest[0] == list@[i as int]);
        if is_decimal_of(list[i].code_id, code_id) {
            return Some(list[i].code_hash.clone());
        }
        assert(rest.drop_first() =~= list@.subrange(i + 1, list@.len() as int));
        i += 1;
    }
    None
}

/// `s` without one trailing `\n`, and then without one trailing `\r`; `s`
/// itself when it does not end in `\n`.
pub open spec fn trimmed(s: Seq<char>) -> Seq<char> {
    if s.len() > 0 && s.last() == '\n' {
        let t = s.drop_last();
        if t.len() > 0 && t.last() == '\r' {
            t.drop_last()
        } else {
            t
        }
    } else {
        s
    }
}

/// Drops a trailing line break (`\n` or `\r\n`).
pub fn trim_newline(s: &mut String)
    ensures
        final(s)@ == trimmed(old(s)@),
{
    let n = s.as_str().unicode_len();
    if n > 0 && s.as_str().get_char(n - 1) == '\n' {
        string_pop(s);
        if n > 1 && s.as_str().get_char(n - 2) == '\r' {
            string_pop(s);
        }
    }
}

} // verus!
