//! The text encoding of the durable state record: a small JSON object
//! `{"last_client": <string>, "last_profile_index": <integer>}`.
//!
//! The encoder writes the record compactly; the parser accepts optional
//! whitespace around every token, so records written earlier with a
//! pretty-printed layout still load. In the client string a backslash
//! escapes the character after it; the encoder escapes exactly quotes and
//! backslashes, and parsing an encoded record gives the record back
//! unchanged, which `lemma_state_round_trip` proves.

use vstd::prelude::*;
use vstd::string::{StrSliceExecFns, StringExecFns};
use crate::chars::{push_char, str_to_chars};
use crate::state::{PersistedState, StateError};

verus! {

/// The whitespace accepted between tokens of the state record.
pub open spec fn is_json_space(c: char) -> bool {
    c == ' ' || c == '\t' || c == '\n' || c == '\r'
}

/// A decimal digit.
pub open spec fn is_digit(c: char) -> bool {
    c == '0' || c == '1' || c == '2' || c == '3' || c == '4' || c == '5' || c == '6' || c == '7'
        || c == '8' || c == '9'
}

/// The value of a decimal digit.
pub open spec fn digit_val(c: char) -> nat {
    if c == '0' {
        0
    } else if c == '1' {
        1
    } else if c == '2' {
        2
    } else if c == '3' {
        3
    } else if c == '4' {
        4
    } else if c == '5' {
        5
    } else if c == '6' {
        6
    } else if c == '7' {
        7
    } else if c == '8' {
        8
    } else {
        9
    }
}

/// The decimal digit for a value below ten.
pub open spec fn digit_char(d: nat) -> char {
    if d == 0 {
        '0'
    } else if d == 1 {
        '1'
    } else if d == 2 {
        '2'
    } else if d == 3 {
        '3'
    } else if d == 4 {
        '4'
    } else if d == 5 {
        '5'
    } else if d == 6 {
        '6'
    } else if d == 7 {
        '7'
    } else if d == 8 {
        '8'
    } else {
        '9'
    }
}

/// The client string with quotes and backslashes escaped.
pub open spec fn esc(s: Seq<char>) -> Seq<char>
    decreases s.len(),
{
    if s.len() == 0 {
        Seq::empty()
    } else if s[0] == '"' || s[0] == '\\' {
        seq!['\\', s[0]] + esc(s.skip(1))
    } else {
        seq![s[0]] + esc(s.skip(1))
    }
}

/// The decimal rendering of a number, most significant digit first.
pub open spec fn dec_digits(n: nat) -> Seq<char>
    decreases n,
{
    if n < 10 {
        seq![digit_char(n)]
    } else {
        dec_digits(n / 10).push(digit_char(n % 10))
    }
}

/// The canonical text of a state record.
pub open spec fn encode_state_spec(client: Seq<char>, idx: nat) -> Seq<char> {
    "{\"last_client\":\""@ + esc(client) + "\",\"last_profile_index\":"@ + dec_digits(idx) + "}"@
}

/// The input without its leading whitespace.
pub open spec fn drop_sp(s: Seq<char>) -> Seq<char>
    decreases s.len(),
{
    if s.len() > 0 && is_json_space(s[0]) {
        drop_sp(s.skip(1))
    } else {
        s
    }
}

/// Count of leading decimal digits.
pub open spec fn digit_count(s: Seq<char>) -> nat
    decreases s.len(),
{
    if s.len() > 0 && is_digit(s[0]) {
        1 + digit_count(s.skip(1))
    } else {
        0
    }
}

/// The number a sequence of digits denotes.
pub open spec fn digits_val(s: Seq<char>) -> nat
    decreases s.len(),
{
    if s.len() == 0 {
        0
    } else {
        digits_val(s.drop_last()) * 10 + digit_val(s.last())
    }
}

/// Whether `s` begins with `lit`.
pub open spec fn starts_with(s: Seq<char>, lit: Seq<char>) -> bool {
    s.len() >= lit.len() && s.take(lit.len() as int) == lit
}

/// Scan a string body up to its closing quote, starting just after the
/// opening quote: the unescaped content and the rest of the input after
/// the closing quote, or nothing when the quote never comes.
pub open spec fn scan_string(s: Seq<char>) -> Option<(Seq<char>, Seq<char>)>
    decreases s.len(),
{
    if s.len() == 0 {
        None
    } else if s[0] == '"' {
        Some((Seq::empty(), s.skip(1)))
    } else if s[0] == '\\' {
        if s.len() < 2 {
            None
        } else {
            match scan_string(s.skip(2)) {
                Some(cr) => Some((seq![s[1]] + cr.0, cr.1)),
                None => None,
            }
        }
    } else {
        match scan_string(s.skip(1)) {
            Some(cr) => Some((seq![s[0]] + cr.0, cr.1)),
            None => None,
        }
    }
}

/// What a state-record text denotes: the client string and the index
/// value, or nothing when the text is not a well-formed record.
pub open spec fn parse_state_spec(s: Seq<char>) -> Option<(Seq<char>, nat)> {
    let s1 = drop_sp(s);
    if !(s1.len() > 0 && s1[0] == '{') {
        None
    } else {
        let s2 = drop_sp(s1.skip(1));
        if !starts_with(s2, "\"last_client\""@) {
            None
        } else {
            let s3 = drop_sp(s2.skip("\"last_client\""@.len() as int));
            if !(s3.len() > 0 && s3[0] == ':') {
                None
            } else {
                let s4 = drop_sp(s3.skip(1));
                if !(s4.len() > 0 && s4[0] == '"') {
                    None
                } else {
                    match scan_string(s4.skip(1)) {
                        None => None,
                        Some(cr) => {
                            let s5 = drop_sp(cr.1);
                            if !(s5.len() > 0 && s5[0] == ',') {
                                None
                            } else {
                                let s6 = drop_sp(s5.skip(1));
                                if !starts_with(s6, "\"last_profile_index\""@) {
                                    None
                                } else {
                                    let s7 = drop_sp(
                                        s6.skip("\"last_profile_index\""@.len() as int),
                                    );
                                    if !(s7.len() > 0 && s7[0] == ':') {
                                        None
                                    } else {
                                        let s8 = drop_sp(s7.skip(1));
                                        let k = digit_count(s8) as int;
                                        if k == 0 {
                                            None
                                        } else {
                                            let s9 = drop_sp(s8.skip(k));
                                            if !(s9.len() > 0 && s9[0] == '}') {
                                                None
                                            } else {
                                                if drop_sp(s9.skip(1)).len() == 0 {
                                                    Some((cr.0, digits_val(s8.take(k))))
                                                } else {
                                                    None
                                                }
                                            }
                                        }
                                    }
                                }
                            }
                        },
                    }
                }
            }
        }
    }
}

/// `drop_sp` removes exactly the leading whitespace span.
pub proof fn lemma_drop_sp_unique(s: Seq<char>, j: int)
    requires
        0 <= j <= s.len(),
        forall|i: int| 0 <= i < j ==> is_json_space(s[i]),
        j < s.len() ==> !is_json_space(s[j]),
    ensures
        drop_sp(s) == s.skip(j),
    decreases s.len(),
{
    if j == 0 {
        assert(s.skip(0) =~= s);
        if s.len() > 0 {
            assert(!is_json_space(s[0]));
        }
    } else {
        assert(is_json_space(s[0]));
        let t = s.skip(1);
        assert forall|i: int| 0 <= i < j - 1 implies is_json_space(t[i]) by {
            assert(t[i] == s[i + 1]);
        }
        if j - 1 < t.len() {
            assert(t[j - 1] == s[j]);
        }
        lemma_drop_sp_unique(t, j - 1);
        assert(s.skip(1).skip(j - 1) =~= s.skip(j));
    }
}

/// `digit_count` counts exactly the leading digit span.
pub proof fn lemma_digit_count_unique(s: Seq<char>, k: int)
    requires
        0 <= k <= s.len(),
        forall|i: int| 0 <= i < k ==> is_digit(s[i]),
        k < s.len() ==> !is_digit(s[k]),
    ensures
        digit_count(s) == k,
    decreases s.len(),
{
    if k == 0 {
        if s.len() > 0 {
            assert(!is_digit(s[0]));
        }
    } else {
        assert(is_digit(s[0]));
        let t = s.skip(1);
        assert forall|i: int| 0 <= i < k - 1 implies is_digit(t[i]) by {
            assert(t[i] == s[i + 1]);
        }
        if k - 1 < t.len() {
            assert(t[k - 1] == s[k]);
        }
        lemma_digit_count_unique(t, k - 1);
    }
}

/// The digit span lies inside the input.
pub proof fn lemma_digit_count_le(s: Seq<char>)
    ensures
        digit_count(s) <= s.len(),
    decreases s.len(),
{
    if s.len() > 0 && is_digit(s[0]) {
        lemma_digit_count_le(s.skip(1));
    }
}

/// A run of leading digits bounds `digit_count` from below.
pub proof fn lemma_digit_count_ge(s: Seq<char>, m: int)
    requires
        0 <= m <= s.len(),
        forall|i: int| 0 <= i < m ==> is_digit(s[i]),
    ensures
        digit_count(s) >= m,
    decreases s.len(),
{
    if m > 0 {
        assert(is_digit(s[0]));
        let t = s.skip(1);
        assert forall|i: int| 0 <= i < m - 1 implies is_digit(t[i]) by {
            assert(t[i] == s[i + 1]);
        }
        lemma_digit_count_ge(t, m - 1);
    }
}

/// A longer digit prefix never denotes a smaller number.
pub proof fn lemma_digits_val_mono(s: Seq<char>, m: int, k: int)
    requires
        0 <= m <= k <= s.len(),
    ensures
        digits_val(s.take(m)) <= digits_val(s.take(k)),
    decreases k - m,
{
    if m < k {
        lemma_digits_val_mono(s, m, k - 1);
        assert(s.take(k).drop_last() =~= s.take(k - 1));
        assert(digits_val(s.take(k)) == digits_val(s.take(k - 1)) * 10 + digit_val(
            s.take(k).last(),
        ));
    }
}

fn json_space_char(c: char) -> (b: bool)
    ensures
        b == is_json_space(c),
{
    c == ' ' || c == '\t' || c == '\n' || c == '\r'
}

fn digit_test(c: char) -> (b: bool)
    ensures
        b == is_digit(c),
{
    c == '0' || c == '1' || c == '2' || c == '3' || c == '4' || c == '5' || c == '6' || c == '7'
        || c == '8' || c == '9'
}

fn digit_value(c: char) -> (d: usize)
    requires
        is_digit(c),
    ensures
        d == digit_val(c),
        d <= 9,
{
    if c == '0' {
        0
    } else if c == '1' {
        1
    } else if c == '2' {
        2
    } else if c == '3' {
        3
    } else if c == '4' {
        4
    } else if c == '5' {
        5
    } else if c == '6' {
        6
    } else if c == '7' {
        7
    } else if c == '8' {
        8
    } else {
        9
    }
}

fn digit_to_char(d: usize) -> (c: char)
    requires
        d <= 9,
    ensures
        c == digit_char(d as nat),
{
    if d == 0 {
        '0'
    } else if d == 1 {
        '1'
    } else if d == 2 {
        '2'
    } else if d == 3 {
        '3'
    } else if d == 4 {
        '4'
    } else if d == 5 {
        '5'
    } else if d == 6 {
        '6'
    } else if d == 7 {
        '7'
    } else if d == 8 {
        '8'
    } else {
        '9'
    }
}

/// Advance past whitespace.
fn skip_spaces(cs: &Vec<char>, from: usize) -> (to: usize)
    requires
        from <= cs.len(),
    ensures
        from <= to <= cs.len(),
        drop_sp(cs@.skip(from as int)) == cs@.skip(to as int),
{
    let mut i = from;
    while i < cs.len() && json_space_char(cs[i])
        invariant
            from <= i <= cs.len(),
            forall|q: int| from <= q < i ==> is_json_space(cs@[q]),
        decreases cs.len() - i,
    {
        i = i + 1;
    }
    proof {
        let s = cs@.skip(from as int);
        assert forall|q: int| 0 <= q < i - from implies is_json_space(s[q]) by {
            assert(s[q] == cs@[from + q]);
        }
        if i < cs.len() {
            assert(s[i - from] == cs@[i as int]);
        }
        lemma_drop_sp_unique(s, i - from);
        assert(s.skip(i - from) =~= cs@.skip(i as int));
    }
    i
}

/// Whether the characters at `from` begin with the given literal.
fn match_lit(cs: &Vec<char>, from: usize, lit: &str) -> (b: bool)
    requires
        from <= cs.len(),
    ensures
        b == starts_with(cs@.skip(from as int), lit@),
{
    let n = lit.unicode_len();
    if cs.len() - from < n {
        return false;
    }
    let mut q: usize = 0;
    while q < n
        invariant
            0 <= q <= n,
            n == lit@.len(),
            from + n <= cs.len(),
            forall|p: int| 0 <= p < q ==> cs@[from + p] == lit@[p],
        decreases n - q,
    {
        if cs[from + q] != lit.get_char(q) {
            proof {
                let s = cs@.skip(from as int);
                assert(s.take(n as int)[q as int] == cs@[from + q]);
            }
            return false;
        }
        q = q + 1;
    }
    proof {
        let s = cs@.skip(from as int);
        assert(s.take(n as int) =~= lit@);
    }
    true
}

/// Scan a string body starting just after its opening quote: the
/// unescaped content and the position just after the closing quote.
fn scan_string_exec(cs: &Vec<char>, from: usize) -> (r: Option<(String, usize)>)
    requires
        from <= cs.len(),
    ensures
        match scan_string(cs@.skip(from as int)) {
            Some(cr) => r matches Some(p) && p.0@ == cr.0 && from <= p.1 <= cs.len() && cr.1
                == cs@.skip(p.1 as int),
            None => r is None,
        },
{
    let mut content = String::new();
    let mut j = from;
    loop
        invariant
            from <= j <= cs.len(),
            scan_string(cs@.skip(from as int)) == (match scan_string(cs@.skip(j as int)) {
                Some(cr) => Some((content@ + cr.0, cr.1)),
                None => None::<(Seq<char>, Seq<char>)>,
            }),
        decreases cs.len() - j,
    {
        if j >= cs.len() {
            proof {
                assert(cs@.skip(j as int).len() == 0);
            }
            return None;
        }
        let c = cs[j];
        proof {
            assert(cs@.skip(j as int)[0] == cs@[j as int]);
        }
        if c == '"' {
            proof {
                let cr = scan_string(cs@.skip(j as int)).unwrap();
                assert(cr.0 =~= Seq::<char>::empty());
                assert(content@ + cr.0 =~= content@);
                assert(cs@.skip(j as int).skip(1) =~= cs@.skip(j + 1));
            }
            return Some((content, j + 1));
        } else if c == '\\' {
            if j + 1 >= cs.len() {
                proof {
                    assert(cs@.skip(j as int).len() < 2);
                }
                return None;
            }
            let ghost content0 = content@;
            push_char(&mut content, cs[j + 1]);
            proof {
                let s = cs@.skip(j as int);
                assert(s[1] == cs@[j + 1]);
                assert(s.skip(2) =~= cs@.skip(j + 2));
                if scan_string(cs@.skip(j + 2)) is Some {
                    let cr = scan_string(cs@.skip(j + 2)).unwrap();
                    assert(content0 + (seq![s[1]] + cr.0) =~= content@ + cr.0);
                }
            }
            j = j + 2;
        } else {
            let ghost content0 = content@;
            push_char(&mut content, c);
            proof {
                let s = cs@.skip(j as int);
                assert(s.skip(1) =~= cs@.skip(j + 1));
                if scan_string(cs@.skip(j + 1)) is Some {
                    let cr = scan_string(cs@.skip(j + 1)).unwrap();
                    assert(content0 + (seq![s[0]] + cr.0) =~= content@ + cr.0);
                }
            }
            j = j + 1;
        }
    }
}

/// Read the run of digits at `from`: its value and its end, or nothing
/// when the value does not fit in `usize`.
fn scan_digits(cs: &Vec<char>, from: usize) -> (r: Option<(usize, usize)>)
    requires
        from <= cs.len(),
    ensures
        ({
            let s = cs@.skip(from as int);
            let k = digit_count(s) as int;
            match r {
                Some(p) => from + k == p.1 && p.0 as nat == digits_val(s.take(k)),
                None => digits_val(s.take(k)) > usize::MAX as nat,
            }
        }),
{
    let ghost s = cs@.skip(from as int);
    let mut v: usize = 0;
    let mut t = from;
    while t < cs.len() && digit_test(cs[t])
        invariant
            from <= t <= cs.len(),
            s == cs@.skip(from as int),
            forall|i: int| from <= i < t ==> is_digit(cs@[i]),
            v as nat == digits_val(s.take(t - from)),
        decreases cs.len() - t,
    {
        let d = digit_value(cs[t]);
        proof {
            assert(s[t - from] == cs@[t as int]);
            assert(s.take(t - from + 1).drop_last() =~= s.take(t - from));
            assert(s.take(t - from + 1).last() == cs@[t as int]);
        }
        if v > (usize::MAX - d) / 10 {
            proof {
                // the value of the digits read so far already overflows,
                // and more digits can only enlarge it
                assert(digits_val(s.take(t - from + 1)) == (v as nat) * 10 + digit_val(
                    cs@[t as int],
                ));
                assert((v as nat) * 10 + (d as nat) > usize::MAX as nat);
                assert forall|i: int| 0 <= i < t - from + 1 implies is_digit(s[i]) by {
                    assert(s[i] == cs@[from + i]);
                }
                lemma_digit_count_ge(s, t - from + 1);
                lemma_digit_count_le(s);
                lemma_digits_val_mono(s, t - from + 1, digit_count(s) as int);
            }
            return None;
        }
        v = v * 10 + d;
        t = t + 1;
    }
    proof {
        assert forall|i: int| 0 <= i < t - from implies is_digit(s[i]) by {
            assert(s[i] == cs@[from + i]);
        }
        if t < cs.len() {
            assert(s[t - from] == cs@[t as int]);
        }
        lemma_digit_count_unique(s, t - from);
    }
    Some((v, t))
}

/// Escaping a concatenation escapes the parts.
pub proof fn lemma_esc_append(x: Seq<char>, y: Seq<char>)
    ensures
        esc(x + y) == esc(x) + esc(y),
    decreases x.len(),
{
    if x.len() == 0 {
        assert(x + y =~= y);
        assert(esc(x) + esc(y) =~= esc(y));
    } else {
        assert((x + y)[0] == x[0]);
        assert((x + y).skip(1) =~= x.skip(1) + y);
        lemma_esc_append(x.skip(1), y);
        if x[0] == '"' || x[0] == '\\' {
            assert(seq!['\\', x[0]] + (esc(x.skip(1)) + esc(y)) =~= (seq!['\\', x[0]] + esc(
                x.skip(1),
            )) + esc(y));
        } else {
            assert(seq![x[0]] + (esc(x.skip(1)) + esc(y)) =~= (seq![x[0]] + esc(x.skip(1))) + esc(
                y,
            ));
        }
    }
}

/// Scanning an escaped string body finds exactly the original string:
/// escaping inserts a backslash before every quote, so the scan stops at
/// the closing quote and undoes every escape.
pub proof fn lemma_scan_esc(client: Seq<char>, rest: Seq<char>)
    ensures
        scan_string(esc(client) + seq!['"'] + rest) == Some((client, rest)),
    decreases client.len(),
{
    let s = esc(client) + seq!['"'] + rest;
    if client.len() == 0 {
        assert(esc(client) =~= Seq::<char>::empty());
        assert(s =~= seq!['"'] + rest);
        assert(s[0] == '"');
        assert(s.skip(1) =~= rest);
    } else {
        let c = client[0];
        let tail = client.skip(1);
        lemma_scan_esc(tail, rest);
        assert(seq![c] + tail =~= client);
        if c == '"' || c == '\\' {
            assert(s[0] == '\\');
            assert(s.len() >= 2);
            assert(s[1] == c);
            assert(s.skip(2) =~= esc(tail) + seq!['"'] + rest);
        } else {
            assert(s[0] == c);
            assert(s[0] != '"' && s[0] != '\\');
            assert(s.skip(1) =~= esc(tail) + seq!['"'] + rest);
        }
    }
}

/// The decimal rendering of a number is a non-empty run of digits that
/// denotes the number itself.
pub proof fn lemma_dec_digits(n: nat)
    ensures
        dec_digits(n).len() >= 1,
        forall|i: int| 0 <= i < dec_digits(n).len() ==> is_digit(#[trigger] dec_digits(n)[i]),
        digits_val(dec_digits(n)) == n,
    decreases n,
{
    if n < 10 {
        assert(dec_digits(n) =~= seq![digit_char(n)]);
        assert(seq![digit_char(n)].drop_last() =~= Seq::<char>::empty());
        assert(digits_val(Seq::<char>::empty()) == 0);
        assert(digit_val(digit_char(n)) == n);
    } else {
        lemma_dec_digits(n / 10);
        let w = dec_digits(n / 10);
        let d = digit_char(n % 10);
        assert(digit_val(d) == n % 10);
        assert(dec_digits(n) == w.push(d));
        assert(w.push(d).drop_last() =~= w);
        assert(w.push(d).last() == d);
        assert(digits_val(dec_digits(n)) == digits_val(w) * 10 + n % 10);
        assert forall|i: int| 0 <= i < dec_digits(n).len() implies is_digit(
            #[trigger] dec_digits(n)[i],
        ) by {
            if i < w.len() {
                assert(dec_digits(n)[i] == w[i]);
            } else {
                assert(dec_digits(n)[i] == d);
            }
        }
    }
}

/// Parsing an encoded record gives the record back: the codec round
/// trip, for every client string and every index.
#[verifier::rlimit(100)]
pub proof fn lemma_state_round_trip(client: Seq<char>, idx: usize)
    ensures
        parse_state_spec(encode_state_spec(client, idx as nat)) == Some((client, idx as nat)),
{
    reveal_strlit("{\"last_client\":\"");
    reveal_strlit("\"last_client\"");
    reveal_strlit("\",\"last_profile_index\":");
    reveal_strlit("\"last_profile_index\"");
    reveal_strlit("}");
    let l1 = "{\"last_client\":\""@;
    let k1 = "\"last_client\""@;
    let l2 = "\",\"last_profile_index\":"@;
    let k2 = "\"last_profile_index\""@;
    let l3 = "}"@;
    let ec = esc(client);
    let dg = dec_digits(idx as nat);
    lemma_dec_digits(idx as nat);
    let e = encode_state_spec(client, idx as nat);
    let rest1 = seq![','] + k2 + seq![':'] + dg + seq!['}'];
    assert(l1 =~= seq!['{'] + k1 + seq![':', '"']);
    assert(l2 =~= seq!['"'] + (seq![','] + k2 + seq![':']));
    assert(l3 =~= seq!['}']);
    // the whole encoding, cut at the token borders the parser visits
    assert(e =~= seq!['{'] + (k1 + (seq![':'] + (seq!['"'] + (ec + (seq!['"'] + rest1))))));
    assert(e[0] == '{');
    assert(drop_sp(e) == e);
    let a1 = k1 + (seq![':'] + (seq!['"'] + (ec + (seq!['"'] + rest1))));
    assert(e.skip(1) =~= a1);
    assert(a1[0] == '"');
    assert(drop_sp(a1) == a1);
    assert(a1.take(k1.len() as int) =~= k1);
    assert(starts_with(a1, k1));
    let a2 = seq![':'] + (seq!['"'] + (ec + (seq!['"'] + rest1)));
    assert(a1.skip(k1.len() as int) =~= a2);
    assert(a2[0] == ':');
    assert(drop_sp(a2) == a2);
    let a3 = seq!['"'] + (ec + (seq!['"'] + rest1));
    assert(a2.skip(1) =~= a3);
    assert(a3[0] == '"');
    assert(drop_sp(a3) == a3);
    assert(a3.skip(1) =~= ec + seq!['"'] + rest1);
    lemma_scan_esc(client, rest1);
    assert(scan_string(a3.skip(1)) == Some((client, rest1)));
    assert(rest1[0] == ',');
    assert(drop_sp(rest1) == rest1);
    let a4 = k2 + (seq![':'] + (dg + seq!['}']));
    assert(rest1.skip(1) =~= a4);
    assert(a4[0] == '"');
    assert(drop_sp(a4) == a4);
    assert(a4.take(k2.len() as int) =~= k2);
    assert(starts_with(a4, k2));
    let a5 = seq![':'] + (dg + seq!['}']);
    assert(a4.skip(k2.len() as int) =~= a5);
    assert(a5[0] == ':');
    assert(drop_sp(a5) == a5);
    let a6 = dg + seq!['}'];
    assert(a5.skip(1) =~= a6);
    assert(!is_json_space(a6[0]));
    assert(drop_sp(a6) == a6);
    assert forall|i: int| 0 <= i < dg.len() implies is_digit(a6[i]) by {
        assert(a6[i] == dg[i]);
    }
    assert(a6[dg.len() as int] == '}');
    lemma_digit_count_unique(a6, dg.len() as int);
    assert(digit_count(a6) == dg.len());
    assert(a6.take(dg.len() as int) =~= dg);
    assert(digits_val(a6.take(dg.len() as int)) == idx as nat);
    let a7 = seq!['}'];
    assert(a6.skip(dg.len() as int) =~= a7);
    assert(drop_sp(a7) == a7);
    assert(a7[0] == '}');
    assert(a7.skip(1) =~= Seq::<char>::empty());
    assert(drop_sp(Seq::<char>::empty()).len() == 0);
    assert(parse_state_spec(e) == Some((client, idx as nat)));
}

/// The state error a malformed state file produces.
fn corrupt() -> (e: StateError)
    ensures
        e is CorruptState,
{
    StateError::CorruptState {
        error: String::from_str("state file does not hold a well-formed state record"),
    }
}

/// Parse the text of a state file. Exactly the texts that denote a
/// record whose index fits the machine parse successfully; every other
/// text is reported corrupt.
#[verifier::rlimit(100)]
pub fn parse_state(content: &str) -> (r: Result<PersistedState, StateError>)
    ensures
        match parse_state_spec(content@) {
            Some(cv) => {
                if cv.1 <= usize::MAX as nat {
                    r matches Ok(st) && st.last_client@ == cv.0 && st.last_profile_index as nat
                        == cv.1
                } else {
                    r matches Err(e) && e is CorruptState
                }
            },
            None => r matches Err(e) && e is CorruptState,
        },
{
    let cs = str_to_chars(content);
    proof {
        assert(cs@.skip(0) =~= cs@);
    }
    let i1 = skip_spaces(&cs, 0);
    if i1 >= cs.len() || cs[i1] != '{' {
        proof {
            if i1 < cs.len() {
                assert(cs@.skip(i1 as int)[0] == cs@[i1 as int]);
            }
        }
        return Err(corrupt());
    }
    proof {
        assert(cs@.skip(i1 as int)[0] == cs@[i1 as int]);
        assert(cs@.skip(i1 as int).skip(1) =~= cs@.skip(i1 + 1));
    }
    let i2 = skip_spaces(&cs, i1 + 1);
    if !match_lit(&cs, i2, "\"last_client\"") {
        return Err(corrupt());
    }
    let kl = "\"last_client\"".unicode_len();
    proof {
        assert(cs@.skip(i2 as int).len() >= kl);
        assert(cs@.skip(i2 as int).skip(kl as int) =~= cs@.skip(i2 + kl));
    }
    let i3 = skip_spaces(&cs, i2 + kl);
    if i3 >= cs.len() || cs[i3] != ':' {
        proof {
            if i3 < cs.len() {
                assert(cs@.skip(i3 as int)[0] == cs@[i3 as int]);
            }
        }
        return Err(corrupt());
    }
    proof {
        assert(cs@.skip(i3 as int)[0] == cs@[i3 as int]);
        assert(cs@.skip(i3 as int).skip(1) =~= cs@.skip(i3 + 1));
    }
    let i4 = skip_spaces(&cs, i3 + 1);
    if i4 >= cs.len() || cs[i4] != '"' {
        proof {
            if i4 < cs.len() {
                assert(cs@.skip(i4 as int)[0] == cs@[i4 as int]);
            }
        }
        return Err(corrupt());
    }
    proof {
        assert(cs@.skip(i4 as int)[0] == cs@[i4 as int]);
        assert(cs@.skip(i4 as int).skip(1) =~= cs@.skip(i4 + 1));
    }
    let scanned = scan_string_exec(&cs, i4 + 1);
    match scanned {
        None => Err(corrupt()),
        Some((client, i5)) => {
            let i6 = skip_spaces(&cs, i5);
            if i6 >= cs.len() || cs[i6] != ',' {
                proof {
                    if i6 < cs.len() {
                        assert(cs@.skip(i6 as int)[0] == cs@[i6 as int]);
                    }
                }
                return Err(corrupt());
            }
            proof {
                assert(cs@.skip(i6 as int)[0] == cs@[i6 as int]);
                assert(cs@.skip(i6 as int).skip(1) =~= cs@.skip(i6 + 1));
            }
            let i7 = skip_spaces(&cs, i6 + 1);
            if !match_lit(&cs, i7, "\"last_profile_index\"") {
                return Err(corrupt());
            }
            let pl = "\"last_profile_index\"".unicode_len();
            proof {
                assert(cs@.skip(i7 as int).len() >= pl);
                assert(cs@.skip(i7 as int).skip(pl as int) =~= cs@.skip(i7 + pl));
            }
            let i8 = skip_spaces(&cs, i7 + pl);
            if i8 >= cs.len() || cs[i8] != ':' {
                proof {
                    if i8 < cs.len() {
                        assert(cs@.skip(i8 as int)[0] == cs@[i8 as int]);
                    }
                }
                return Err(corrupt());
            }
            proof {
                assert(cs@.skip(i8 as int)[0] == cs@[i8 as int]);
                assert(cs@.skip(i8 as int).skip(1) =~= cs@.skip(i8 + 1));
            }
            let i9 = skip_spaces(&cs, i8 + 1);
            let digits = scan_digits(&cs, i9);
            match digits {
                None => {
                    proof {
                        assert(digit_count(cs@.skip(i9 as int)) > 0) by {
                            assert(cs@.skip(i9 as int).take(0) =~= Seq::<char>::empty());
                        }
                    }
                    Err(corrupt())
                },
                Some((v, i10)) => {
                    proof {
                        lemma_digit_count_le(cs@.skip(i9 as int));
                    }
                    if i10 == i9 {
                        return Err(corrupt());
                    }
                    proof {
                        assert(cs@.skip(i9 as int).skip(i10 - i9) =~= cs@.skip(i10 as int));
                    }
                    let i11 = skip_spaces(&cs, i10);
                    if i11 >= cs.len() || cs[i11] != '}' {
                        proof {
                            if i11 < cs.len() {
                                assert(cs@.skip(i11 as int)[0] == cs@[i11 as int]);
                            }
                        }
                        return Err(corrupt());
                    }
                    proof {
                        assert(cs@.skip(i11 as int)[0] == cs@[i11 as int]);
                        assert(cs@.skip(i11 as int).skip(1) =~= cs@.skip(i11 + 1));
                    }
                    let i12 = skip_spaces(&cs, i11 + 1);
                    if i12 < cs.len() {
                        return Err(corrupt());
                    }
                    Ok(PersistedState { last_client: client, last_profile_index: v })
                },
            }
        },
    }
}

/// Append the decimal rendering of a number.
fn push_decimal(out: &mut String, n: usize)
    ensures
        final(out)@ == old(out)@ + dec_digits(n as nat),
    decreases n,
{
    if n < 10 {
        push_char(out, digit_to_char(n));
        proof {
            assert(old(out)@.push(digit_char(n as nat)) =~= old(out)@ + dec_digits(n as nat));
        }
    } else {
        push_decimal(out, n / 10);
        push_char(out, digit_to_char(n % 10));
        proof {
            assert((old(out)@ + dec_digits((n / 10) as nat)).push(digit_char((n % 10) as nat))
                =~= old(out)@ + dec_digits(n as nat));
        }
    }
}

/// Render a state record as its canonical text.
pub fn encode_state(state: &PersistedState) -> (s: String)
    ensures
        s@ == encode_state_spec(state.last_client@, state.last_profile_index as nat),
{
    let ghost client = state.last_client@;
    let mut out = String::from_str("{\"last_client\":\"");
    let cs = str_to_chars(state.last_client.as_str());
    let mut i: usize = 0;
    proof {
        assert(client.take(0) =~= Seq::<char>::empty());
        assert(out@ + esc(client.take(0)) =~= out@);
    }
    while i < cs.len()
        invariant
            i <= cs.len(),
            cs@ == client,
            out@ == "{\"last_client\":\""@ + esc(client.take(i as int)),
        decreases cs.len() - i,
    {
        let c = cs[i];
        let ghost out0 = out@;
        if c == '"' || c == '\\' {
            push_char(&mut out, '\\');
            push_char(&mut out, c);
        } else {
            push_char(&mut out, c);
        }
        proof {
            let one = seq![client[i as int]];
            assert(client.take(i + 1) =~= client.take(i as int) + one);
            lemma_esc_append(client.take(i as int), one);
            assert(one.skip(1) =~= Seq::<char>::empty());
            assert(esc(Seq::<char>::empty()) =~= Seq::<char>::empty());
            assert(esc(one.skip(1)) =~= Seq::<char>::empty());
            if c == '"' || c == '\\' {
                assert(esc(one) =~= seq!['\\', c]);
                assert(out@ =~= "{\"last_client\":\""@ + esc(client.take(i + 1)));
            } else {
                assert(esc(one) =~= seq![c]);
                assert(out@ =~= "{\"last_client\":\""@ + esc(client.take(i + 1)));
            }
        }
        i = i + 1;
    }
    proof {
        assert(client.take(cs.len() as int) =~= client);
    }
    out.append("\",\"last_profile_index\":");
    push_decimal(&mut out, state.last_profile_index);
    push_char(&mut out, '}');
    proof {
        reveal_strlit("}");
        assert("}"@ =~= seq!['}']);
        assert(out@ =~= encode_state_spec(client, state.last_profile_index as nat));
    }
    out
}

} // verus!
