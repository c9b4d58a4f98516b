//! Parsing the output of the external profile-listing command.
//!
//! The listing command's stdout is split into lines; each line is trimmed
//! of surrounding whitespace and blank lines are dropped, keeping the
//! order and duplicates of the remaining lines exactly.

use vstd::prelude::*;
use crate::chars::{push_char_range, str_to_chars};

verus! {

/// Whitespace as trimmed from discovery output: the ASCII whitespace
/// characters.
pub open spec fn is_space(c: char) -> bool {
    c == ' ' || c == '\t' || c == '\r' || c == '\n' || c == '\x0b' || c == '\x0c'
}

/// Number of characters before the first line break, or the whole length
/// when there is none.
pub open spec fn line_span(s: Seq<char>) -> nat
    decreases s.len(),
{
    if s.len() == 0 {
        0
    } else if s[0] == '\n' {
        0
    } else {
        1 + line_span(s.skip(1))
    }
}

/// The input split at line breaks, the breaks themselves dropped.
pub open spec fn split_lines(s: Seq<char>) -> Seq<Seq<char>>
    decreases s.len(),
{
    if s.len() == 0 {
        seq![]
    } else {
        let k = line_span(s) as int;
        if k >= s.len() {
            seq![s]
        } else {
            seq![s.take(k)] + split_lines(s.skip(k + 1))
        }
    }
}

/// Count of leading whitespace characters.
pub open spec fn lead_ws(s: Seq<char>) -> nat
    decreases s.len(),
{
    if s.len() == 0 {
        0
    } else if is_space(s[0]) {
        1 + lead_ws(s.skip(1))
    } else {
        0
    }
}

/// Count of trailing whitespace characters.
pub open spec fn trail_ws(s: Seq<char>) -> nat
    decreases s.len(),
{
    if s.len() == 0 {
        0
    } else if is_space(s.last()) {
        1 + trail_ws(s.drop_last())
    } else {
        0
    }
}

/// The input with surrounding whitespace removed.
pub open spec fn trimmed(s: Seq<char>) -> Seq<char> {
    if lead_ws(s) >= s.len() {
        Seq::empty()
    } else {
        s.subrange(lead_ws(s) as int, s.len() - trail_ws(s))
    }
}

/// The profile list a discovery output denotes: its lines, each trimmed,
/// blank lines dropped. Mapping keeps order and duplicates; the filter
/// removes only blank entries.
pub open spec fn clean_lines(s: Seq<char>) -> Seq<Seq<char>> {
    split_lines(s).map_values(|l: Seq<char>| trimmed(l)).filter(|l: Seq<char>| l.len() > 0)
}

/// `line_span` is the unique break position: everything before it is not
/// a line break, and it stands at a break or at the end.
pub proof fn lemma_line_span_unique(s: Seq<char>, k: int)
    requires
        0 <= k <= s.len(),
        forall|i: int| 0 <= i < k ==> s[i] != '\n',
        k < s.len() ==> s[k] == '\n',
    ensures
        line_span(s) == k,
    decreases s.len(),
{
    if k == 0 {
        if s.len() > 0 {
            assert(s[0] == '\n');
        }
    } else {
        assert(s[0] != '\n');
        let t = s.skip(1);
        assert forall|i: int| 0 <= i < k - 1 implies t[i] != '\n' by {
            assert(t[i] == s[i + 1]);
        }
        if k - 1 < t.len() {
            assert(t[k - 1] == s[k]);
        }
        lemma_line_span_unique(t, k - 1);
    }
}

/// `lead_ws` is the unique leading-whitespace count.
pub proof fn lemma_lead_ws_unique(s: Seq<char>, a: int)
    requires
        0 <= a <= s.len(),
        forall|i: int| 0 <= i < a ==> is_space(s[i]),
        a < s.len() ==> !is_space(s[a]),
    ensures
        lead_ws(s) == a,
    decreases s.len(),
{
    if a == 0 {
        if s.len() > 0 {
            assert(!is_space(s[0]));
        }
    } else {
        assert(is_space(s[0]));
        let t = s.skip(1);
        assert forall|i: int| 0 <= i < a - 1 implies is_space(t[i]) by {
            assert(t[i] == s[i + 1]);
        }
        if a - 1 < t.len() {
            assert(t[a - 1] == s[a]);
        }
        lemma_lead_ws_unique(t, a - 1);
    }
}

/// `trail_ws` is the unique trailing-whitespace count.
pub proof fn lemma_trail_ws_unique(s: Seq<char>, b: int)
    requires
        0 <= b <= s.len(),
        forall|i: int| s.len() - b <= i < s.len() ==> is_space(s[i]),
        b < s.len() ==> !is_space(s[s.len() - b - 1]),
    ensures
        trail_ws(s) == b,
    decreases s.len(),
{
    if b == 0 {
        if s.len() > 0 {
            assert(!is_space(s.last()));
        }
    } else {
        assert(is_space(s.last()));
        let t = s.drop_last();
        assert forall|i: int| t.len() - (b - 1) <= i < t.len() implies is_space(t[i]) by {
            assert(t[i] == s[i]);
        }
        if b - 1 < t.len() {
            assert(t[t.len() - (b - 1) - 1] == s[s.len() - b - 1]);
        }
        lemma_trail_ws_unique(t, b - 1);
    }
}

/// Where the whitespace spans lie, and that they do not overlap when the
/// input holds a non-whitespace character.
pub proof fn lemma_lead_ws_at(s: Seq<char>)
    ensures
        lead_ws(s) <= s.len(),
        forall|i: int| 0 <= i < lead_ws(s) ==> is_space(s[i]),
        lead_ws(s) < s.len() ==> !is_space(s[lead_ws(s) as int]),
    decreases s.len(),
{
    if s.len() > 0 && is_space(s[0]) {
        let t = s.skip(1);
        lemma_lead_ws_at(t);
        assert forall|i: int| 0 <= i < lead_ws(s) implies is_space(s[i]) by {
            if i > 0 {
                assert(t[i - 1] == s[i]);
            }
        }
        if lead_ws(s) < s.len() {
            assert(t[lead_ws(s) - 1] == s[lead_ws(s) as int]);
        }
    }
}

pub proof fn lemma_trail_ws_at(s: Seq<char>)
    ensures
        trail_ws(s) <= s.len(),
        forall|i: int| s.len() - trail_ws(s) <= i < s.len() ==> is_space(s[i]),
        trail_ws(s) < s.len() ==> !is_space(s[s.len() - trail_ws(s) - 1]),
    decreases s.len(),
{
    if s.len() > 0 && is_space(s.last()) {
        let t = s.drop_last();
        lemma_trail_ws_at(t);
        assert forall|i: int| s.len() - trail_ws(s) <= i < s.len() implies is_space(s[i]) by {
            if i < s.len() - 1 {
                assert(t[i] == s[i]);
            }
        }
        if trail_ws(s) < s.len() {
            assert(t[t.len() - trail_ws(t) - 1] == s[s.len() - trail_ws(s) - 1]);
        }
    }
}

/// A trimmed line is no longer than the line, and when it is non-empty
/// neither of its ends is whitespace.
pub proof fn lemma_trimmed_ends(s: Seq<char>)
    ensures
        trimmed(s).len() <= s.len(),
        trimmed(s).len() > 0 ==> !is_space(trimmed(s)[0]),
        trimmed(s).len() > 0 ==> !is_space(trimmed(s).last()),
{
    lemma_lead_ws_at(s);
    lemma_trail_ws_at(s);
    if lead_ws(s) < s.len() {
        // the first non-whitespace character bounds the trailing span
        assert(lead_ws(s) < s.len() - trail_ws(s)) by {
            if lead_ws(s) >= s.len() - trail_ws(s) {
                assert(is_space(s[lead_ws(s) as int]));
            }
        }
        assert(trimmed(s)[0] == s[lead_ws(s) as int]);
        assert(trimmed(s).last() == s[s.len() - trail_ws(s) - 1]);
    }
}

/// Every element of a filtered sequence is an element of the original.
proof fn lemma_filter_elem<A>(s: Seq<A>, pred: spec_fn(A) -> bool, k: int)
    requires
        0 <= k < s.filter(pred).len(),
    ensures
        s.contains(s.filter(pred)[k]),
    decreases s.len(),
{
    reveal(Seq::filter);
    if s.len() > 0 {
        let sub = s.drop_last().filter(pred);
        if pred(s.last()) && k == sub.len() {
            assert(s.filter(pred)[k] == s[s.len() - 1]);
        } else {
            lemma_filter_elem(s.drop_last(), pred, k);
            let w = choose|w: int| 0 <= w < s.drop_last().len() && s.drop_last()[w] == sub[k];
            assert(s[w] == sub[k]);
        }
    }
}

/// Blank lines and surrounding whitespace never appear in a parsed
/// profile listing: every entry is non-empty and neither of its ends is
/// whitespace. (That the order and duplicates of the non-blank lines are
/// kept is `clean_lines` itself: mapping a trim over the lines and
/// filtering out only the blanks.)
pub proof fn lemma_clean_lines_are_trimmed(s: Seq<char>)
    ensures
        forall|k: int|
            0 <= k < clean_lines(s).len() ==> (#[trigger] clean_lines(s)[k]).len() > 0,
        forall|k: int|
            0 <= k < clean_lines(s).len() ==> !is_space(#[trigger] clean_lines(s)[k][0])
                && !is_space(clean_lines(s)[k].last()),
{
    let mf = |l: Seq<char>| trimmed(l);
    let pf = |l: Seq<char>| l.len() > 0;
    let mapped = split_lines(s).map_values(mf);
    assert forall|k: int| 0 <= k < clean_lines(s).len() implies (#[trigger] clean_lines(
        s,
    )[k]).len() > 0 && !is_space(clean_lines(s)[k][0]) && !is_space(
        clean_lines(s)[k].last(),
    ) by {
        Seq::lemma_filter_pred(mapped, pf, k);
        lemma_filter_elem(mapped, pf, k);
        let w = choose|w: int| 0 <= w < mapped.len() && mapped[w] == mapped.filter(pf)[k];
        assert(mapped[w] == trimmed(split_lines(s)[w]));
        lemma_trimmed_ends(split_lines(s)[w]);
    }
}

/// What running the external listing or switch command produced: either
/// the process ran to completion (with its exit status and captured
/// output), or it could not be launched at all. The spawning itself
/// happens outside this crate.
#[derive(Debug)]
pub enum ExecOutcome {
    Spawned { status_success: bool, status_text: String, stdout: String, stderr: String },
    SpawnFailed { error: String },
}

/// Failures of profile discovery.
#[derive(Debug)]
pub enum DiscoveryError {
    /// The listing command could not be launched.
    ExecFailed { error: String },
    /// The listing command ran but exited with a non-zero status.
    CommandFailed { status_text: String, stdout: String, stderr: String },
    /// The listing command succeeded but reported no profiles; an empty
    /// profile set is never a valid operating state.
    NoProfiles,
}

/// Turn the outcome of the external listing command into the discovered
/// profile list, or the discovery error the outcome denotes.
pub fn discover_profiles(listing: &ExecOutcome) -> (r: Result<Vec<String>, DiscoveryError>)
    ensures
        match *listing {
            ExecOutcome::SpawnFailed { error } => r == Err::<Vec<String>, DiscoveryError>(
                (DiscoveryError::ExecFailed { error }),
            ),
            ExecOutcome::Spawned { status_success, status_text, stdout, stderr } => {
                if !status_success {
                    r == Err::<Vec<String>, DiscoveryError>(
                        (DiscoveryError::CommandFailed { status_text, stdout, stderr }),
                    )
                } else if clean_lines(stdout@).len() == 0 {
                    r == Err::<Vec<String>, DiscoveryError>(DiscoveryError::NoProfiles)
                } else {
                    r matches Ok(p) && p.deep_view() == clean_lines(stdout@)
                }
            },
        },
{
    match listing {
        ExecOutcome::SpawnFailed { error } => Err(
            DiscoveryError::ExecFailed { error: error.clone() },
        ),
        ExecOutcome::Spawned { status_success, status_text, stdout, stderr } => {
            if !*status_success {
                Err(
                    DiscoveryError::CommandFailed {
                        status_text: status_text.clone(),
                        stdout: stdout.clone(),
                        stderr: stderr.clone(),
                    },
                )
            } else {
                let profiles = parse_profiles(stdout.as_str());
                if profiles.len() == 0 {
                    Err(DiscoveryError::NoProfiles)
                } else {
                    Ok(profiles)
                }
            }
        },
    }
}

/// Whitespace test, usable from executable code.
pub fn space_char(c: char) -> (b: bool)
    ensures
        b == is_space(c),
{
    c == ' ' || c == '\t' || c == '\r' || c == '\n' || c == '\x0b' || c == '\x0c'
}

/// Split the listing output into lines, trim each, and drop the blank
/// ones, keeping order and duplicates of the rest exactly.
pub fn parse_profiles(stdout: &str) -> (profiles: Vec<String>)
    ensures
        profiles.deep_view() == clean_lines(stdout@),
{
    let cs = str_to_chars(stdout);
    let n = cs.len();
    let mut profiles: Vec<String> = Vec::new();
    let mut pos: usize = 0;
    proof {
        assert(cs@.skip(0) =~= cs@);
        assert(profiles.deep_view() + clean_lines(cs@) =~= clean_lines(cs@));
    }
    while pos < n
        invariant
            pos <= n,
            n == cs.len(),
            cs@ == stdout@,
            profiles.deep_view() + clean_lines(cs@.skip(pos as int)) == clean_lines(cs@),
        decreases n - pos,
    {
        let ghost r = cs@.skip(pos as int);
        // find the end of the current line
        let mut j = pos;
        while j < n && cs[j] != '\n'
            invariant
                pos <= j <= n,
                n == cs.len(),
                forall|i: int| pos <= i < j ==> cs@[i] != '\n',
            decreases n - j,
        {
            j = j + 1;
        }
        proof {
            assert forall|i: int| 0 <= i < j - pos implies r[i] != '\n' by {
                assert(r[i] == cs@[pos + i]);
            }
            if j < n {
                assert(r[j - pos] == cs@[j as int]);
            }
            lemma_line_span_unique(r, j - pos);
        }
        let ghost line = r.take((j - pos) as int);
        proof {
            assert(line =~= cs@.subrange(pos as int, j as int));
        }
        // trim the line
        let mut a = pos;
        while a < j && space_char(cs[a])
            invariant
                pos <= a <= j <= n,
                n == cs.len(),
                forall|i: int| pos <= i < a ==> is_space(cs@[i]),
            decreases j - a,
        {
            a = a + 1;
        }
        let mut b = j;
        while b > a && space_char(cs[b - 1])
            invariant
                a <= b <= j <= n,
                n == cs.len(),
                forall|i: int| b <= i < j ==> is_space(cs@[i]),
            decreases b,
        {
            b = b - 1;
        }
        proof {
            assert forall|i: int| 0 <= i < a - pos implies is_space(line[i]) by {
                assert(line[i] == cs@[pos + i]);
            }
            if a < j {
                assert(line[a - pos] == cs@[a as int]);
            }
            lemma_lead_ws_unique(line, a - pos);
            if a == j {
                // the whole line is whitespace
                assert(trimmed(line) =~= Seq::<char>::empty());
            } else {
                assert forall|i: int| line.len() - (j - b) <= i < line.len() implies is_space(
                    line[i],
                ) by {
                    assert(line[i] == cs@[pos + i]);
                }
                if j - b < line.len() {
                    assert(line[line.len() - (j - b) - 1] == cs@[b - 1]);
                    assert(b > a);
                }
                lemma_trail_ws_unique(line, j - b);
                assert(trimmed(line) =~= cs@.subrange(a as int, b as int));
            }
        }
        // append the trimmed line if it is non-blank
        if b > a {
            let ghost dv0 = profiles.deep_view();
            let mut p = String::new();
            push_char_range(&mut p, &cs, a, b);
            proof {
                assert(p@ =~= trimmed(line));
            }
            profiles.push(p);
            proof {
                assert(profiles.deep_view() =~= dv0.push(trimmed(line)));
            }
        }
        // step: peel the first line off the remaining suffix
        proof {
            let mf = |l: Seq<char>| trimmed(l);
            let pf = |l: Seq<char>| l.len() > 0;
            let tl = trimmed(line);
            let singleton = if tl.len() > 0 { seq![tl] } else { Seq::<Seq<char>>::empty() };
            assert(seq![tl].filter(pf) =~= singleton) by {
                reveal(Seq::filter);
                assert(seq![tl].drop_last() =~= Seq::<Seq<char>>::empty());
                assert(Seq::<Seq<char>>::empty().filter(pf) =~= Seq::<Seq<char>>::empty());
            }
            if j < n {
                let rest = cs@.skip(j + 1);
                assert(r.skip(j - pos + 1) =~= rest);
                assert(split_lines(r) == seq![line] + split_lines(rest));
                assert(split_lines(r).map_values(mf) =~= seq![tl] + split_lines(rest).map_values(
                    mf,
                ));
                Seq::<Seq<char>>::filter_distributes_over_add(
                    seq![tl],
                    split_lines(rest).map_values(mf),
                    pf,
                );
                assert(clean_lines(r) == singleton + clean_lines(rest));
            } else {
                assert(line =~= r);
                assert(split_lines(r) == seq![r]);
                assert(split_lines(r).map_values(mf) =~= seq![tl]);
                assert(clean_lines(r) == singleton);
                assert(cs@.skip(n as int) =~= Seq::<char>::empty());
                assert(split_lines(Seq::<char>::empty()) == Seq::<Seq<char>>::empty());
                assert(Seq::<Seq<char>>::empty().map_values(mf) =~= Seq::<Seq<char>>::empty());
                assert(clean_lines(Seq::<char>::empty()) =~= Seq::<Seq<char>>::empty()) by {
                    reveal(Seq::filter);
                }
                assert(clean_lines(r) =~= singleton + clean_lines(cs@.skip(n as int)));
            }
        }
        let old_pos = pos;
        pos = if j < n {
            j + 1
        } else {
            n
        };
        proof {
            let tl = trimmed(line);
            let singleton = if tl.len() > 0 { seq![tl] } else { Seq::<Seq<char>>::empty() };
            assert(clean_lines(cs@.skip(old_pos as int)) == singleton + clean_lines(
                cs@.skip(pos as int),
            ));
            if tl.len() > 0 {
                assert(profiles.deep_view() + clean_lines(cs@.skip(pos as int)) =~= clean_lines(
                    cs@,
                ));
            } else {
                assert(profiles.deep_view() + clean_lines(cs@.skip(pos as int)) =~= clean_lines(
                    cs@,
                ));
            }
        }
    }
    proof {
        assert(cs@.skip(n as int) =~= Seq::<char>::empty());
        assert(split_lines(Seq::<char>::empty()) == Seq::<Seq<char>>::empty());
        assert(clean_lines(Seq::<char>::empty()) =~= Seq::<Seq<char>>::empty()) by {
            reveal(Seq::filter);
        }
        assert(profiles.deep_view() =~= clean_lines(cs@));
    }
    profiles
}

} // verus!
