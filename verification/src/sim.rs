//! Output probes: what a run reports, and how a probe is written.
pub mod ac;
pub mod output;
pub mod resolve;
pub mod sweep;

use vstd::prelude::*;
use vstd::string::*;

use crate::error::{ErrorView, SolveError};
use crate::text::{
    is_space, lower, lower_char, lemma_position, position, position_from, trim, trimmed,
};

verus! {

/// One output quantity requested from a run.
#[derive(Debug, Clone, PartialEq)]
pub enum Probe {
    /// `V(node)`.
    NodeVoltage(String),
    /// `V(a,b)` = `V(a) - V(b)`.
    NodeDiff(String, String),
    /// `I(name)`: the branch current of a voltage source or inductor.
    BranchCurrent(String),
}

/// A probe with its names as sequences of characters.
pub enum ProbeView {
    NodeVoltage(Seq<char>),
    NodeDiff(Seq<char>, Seq<char>),
    BranchCurrent(Seq<char>),
}

impl View for Probe {
    type V = ProbeView;

    open spec fn view(&self) -> ProbeView {
        match self {
            Probe::NodeVoltage(a) => ProbeView::NodeVoltage(a@),
            Probe::NodeDiff(a, b) => ProbeView::NodeDiff(a@, b@),
            Probe::BranchCurrent(d) => ProbeView::BranchCurrent(d@),
        }
    }
}

/// The canonical column label of a probe.
pub open spec fn label_of(p: ProbeView) -> Seq<char> {
    match p {
        ProbeView::NodeVoltage(a) => seq!['V', '('] + a + seq![')'],
        ProbeView::NodeDiff(a, b) => seq!['V', '('] + a + seq![','] + b + seq![')'],
        ProbeView::BranchCurrent(d) => seq!['I', '('] + d + seq![')'],
    }
}

/// "probe `t`" followed by what is wrong with it.
pub open spec fn complaint(t: Seq<char>, what: Seq<char>) -> Result<ProbeView, ErrorView> {
    Err(ErrorView::Invalid("probe `"@ + t + what))
}

/// What the argument list of `V(..)` names.
pub open spec fn parsed_voltage(t: Seq<char>, inner: Seq<char>) -> Result<ProbeView, ErrorView> {
    let bad = complaint(t, "`: V() takes one node `V(a)` or two `V(a,b)`"@);
    let k = position_from(inner, ',', 0);
    if k == inner.len() {
        let a = trimmed(inner);
        if a.len() > 0 {
            Ok(ProbeView::NodeVoltage(a))
        } else {
            bad
        }
    } else {
        let rest = inner.subrange(k + 1, inner.len() as int);
        let a = trimmed(inner.subrange(0, k));
        let b = trimmed(rest);
        if position_from(rest, ',', 0) == rest.len() && a.len() > 0 && b.len() > 0 {
            Ok(ProbeView::NodeDiff(a, b))
        } else {
            bad
        }
    }
}

/// What the argument list of `I(..)` names.
pub open spec fn parsed_current(t: Seq<char>, inner: Seq<char>) -> Result<ProbeView, ErrorView> {
    if inner.len() > 0 && position_from(inner, ',', 0) == inner.len() {
        Ok(ProbeView::BranchCurrent(inner))
    } else {
        complaint(t, "`: I() takes one element name `I(V1)`"@)
    }
}

/// What a probe text denotes: a bare node name, or `V(..)` / `I(..)` in any
/// letter case, with white space allowed around every part.
pub open spec fn parsed(s: Seq<char>) -> Result<ProbeView, ErrorView> {
    let t = trimmed(s);
    let open = position_from(t, '(', 0);
    if t.len() == 0 {
        Err(ErrorView::Invalid("empty probe"@))
    } else if open == t.len() {
        Ok(ProbeView::NodeVoltage(t))
    } else if t.last() != ')' {
        complaint(t, "`: missing closing `)`"@)
    } else {
        let head = lower(trimmed(t.subrange(0, open)));
        let inner = trimmed(t.subrange(open + 1, t.len() - 1));
        if head == seq!['v'] {
            parsed_voltage(t, inner)
        } else if head == seq!['i'] {
            parsed_current(t, inner)
        } else {
            complaint(
                t,
                "`: unknown output function `"@ + head + "` (use V(...) or I(...))"@,
            )
        }
    }
}

/// The view of a parse result.
pub open spec fn result_view(r: Result<Probe, SolveError>) -> Result<ProbeView, ErrorView> {
    match r {
        Ok(p) => Ok(p@),
        Err(e) => Err(e@),
    }
}

fn lowered(s: &str) -> (r: String)
    ensures
        r@ == lower(s@),
{
    let n: usize = s.unicode_len();
    let mut out: String = String::new();
    let mut i: usize = 0;
    while i < n
        invariant
            i <= n,
            n == s@.len(),
            out@ == lower(s@).take(i as int),
        decreases n - i,
    {
        out.append(lowered_char(s, i).as_str());
        proof {
            assert(lower(s@).take(i + 1) =~= lower(s@).take(i as int) + seq![lower(s@)[i as int]]);
        }
        i = i + 1;
    }
    proof {
        assert(lower(s@).take(n as int) =~= lower(s@));
    }
    out
}

fn lowered_char(s: &str, i: usize) -> (r: String)
    requires
        i < s@.len(),
    ensures
        r@ == seq![lower_char(s@[i as int])],
{
    let upper = "ABCDEFGHIJKLMNOPQRSTUVWXYZ";
    let small = "abcdefghijklmnopqrstuvwxyz";
    let c: char = s.get_char(i);
    proof {
        reveal_strlit("ABCDEFGHIJKLMNOPQRSTUVWXYZ");
        reveal_strlit("abcdefghijklmnopqrstuvwxyz");
    }
    if 'A' <= c && c <= 'Z' {
        let k: usize = (c as u32 - 65) as usize;
        let r: String = String::from_str(small.substring_char(k, k + 1));
        proof {
            assert(r@ =~= seq![lower_char(c)]);
        }
        r
    } else {
        let n: usize = s.unicode_len();
        let end: usize = if i < n { i + 1 } else { n };
        let r: String = String::from_str(s.substring_char(i, end));
        proof {
            assert(r@ =~= seq![lower_char(c)]);
        }
        r
    }
}

fn invalid_probe(t: &str, what: &str) -> (e: SolveError)
    ensures
        e@ == ErrorView::Invalid("probe `"@ + t@ + what@),
{
    let mut m: String = String::from_str("probe `");
    m.append(t);
    m.append(what);
    SolveError::Invalid(m)
}

impl Probe {
    /// The canonical column label, e.g. `V(out)`, `V(a,b)`, `I(V1)`.
    pub fn label(&self) -> (r: String)
        ensures
            r@ == label_of(self@),
    {
        proof {
            reveal_strlit("V(");
            reveal_strlit("I(");
            reveal_strlit(",");
            reveal_strlit(")");
        }
        let r: String = match self {
            Probe::NodeVoltage(a) => {
                let mut s: String = String::from_str("V(");
                s.append(a.as_str());
                s.append(")");
                s
            },
            Probe::NodeDiff(a, b) => {
                let mut s: String = String::from_str("V(");
                s.append(a.as_str());
                s.append(",");
                s.append(b.as_str());
                s.append(")");
                s
            },
            Probe::BranchCurrent(d) => {
                let mut s: String = String::from_str("I(");
                s.append(d.as_str());
                s.append(")");
                s
            },
        };
        proof {
            assert(r@ =~= label_of(self@));
        }
        r
    }

    fn parse_voltage(t: &str, inner: &str) -> (r: Result<Probe, SolveError>)
        ensures
            result_view(r) == parsed_voltage(t@, inner@),
    {
        let n: usize = inner.unicode_len();
        let k: usize = position(inner, ',');
        if k == n {
            let a = trim(inner);
            if a.unicode_len() > 0 {
                return Ok(Probe::NodeVoltage(String::from_str(a)));
            }
        } else {
            let rest = inner.substring_char(k + 1, n);
            let a = trim(inner.substring_char(0, k));
            let b = trim(rest);
            if position(rest, ',') == rest.unicode_len() && a.unicode_len() > 0 && b.unicode_len()
                > 0 {
                return Ok(Probe::NodeDiff(String::from_str(a), String::from_str(b)));
            }
        }
        Err(invalid_probe(t, "`: V() takes one node `V(a)` or two `V(a,b)`"))
    }

    fn parse_current(t: &str, inner: &str) -> (r: Result<Probe, SolveError>)
        ensures
            result_view(r) == parsed_current(t@, inner@),
    {
        let n: usize = inner.unicode_len();
        if n > 0 && position(inner, ',') == n {
            Ok(Probe::BranchCurrent(String::from_str(inner)))
        } else {
            Err(invalid_probe(t, "`: I() takes one element name `I(V1)`"))
        }
    }

    /// Parse `V(a)`, `V(a,b)`, `I(name)` (any case), or a bare node name.
    pub fn parse(s: &str) -> (r: Result<Probe, SolveError>)
        ensures
            result_view(r) == parsed(s@),
    {
        let t = trim(s);
        let n: usize = t.unicode_len();
        if n == 0 {
            return Err(SolveError::Invalid(String::from_str("empty probe")));
        }
        let open: usize = position(t, '(');
        proof {
            lemma_position(t@, '(', 0);
        }
        if open == n {
            return Ok(Probe::NodeVoltage(String::from_str(t)));
        }
        if t.get_char(n - 1) != ')' {
            return Err(invalid_probe(t, "`: missing closing `)`"));
        }
        let head: String = lowered(trim(t.substring_char(0, open)));
        let inner = trim(t.substring_char(open + 1, n - 1));
        if head.as_str().unicode_len() == 1 {
            let c: char = head.as_str().get_char(0);
            if c == 'v' {
                proof {
                    assert(head@ =~= seq!['v']);
                }
                return Probe::parse_voltage(t, inner);
            }
            if c == 'i' {
                proof {
                    assert(head@ =~= seq!['i']);
                }
                return Probe::parse_current(t, inner);
            }
        }
        let mut what: String = String::from_str("`: unknown output function `");
        what.append(head.as_str());
        what.append("` (use V(...) or I(...))");
        Err(invalid_probe(t, what.as_str()))
    }
}

/// A name that a probe can carry through its written form.
pub open spec fn plain_name(a: Seq<char>) -> bool {
    &&& a.len() > 0
    &&& !is_space(a[0])
    &&& !is_space(a.last())
    &&& !a.contains(',')
}

/// The names in a probe are plain.
pub open spec fn plain_probe(p: ProbeView) -> bool {
    match p {
        ProbeView::NodeVoltage(a) => plain_name(a),
        ProbeView::NodeDiff(a, b) => plain_name(a) && plain_name(b),
        ProbeView::BranchCurrent(d) => plain_name(d),
    }
}

proof fn lemma_no_comma(a: Seq<char>, from: int)
    requires
        !a.contains(','),
        0 <= from <= a.len(),
    ensures
        position_from(a, ',', from) == a.len(),
    decreases a.len() - from,
{
    if from < a.len() {
        assert(a.contains(a[from]));
        lemma_no_comma(a, from + 1);
    }
}

proof fn lemma_first_comma(a: Seq<char>, b: Seq<char>, from: int)
    requires
        !a.contains(','),
        0 <= from <= a.len(),
    ensures
        position_from(a + seq![','] + b, ',', from) == a.len(),
    decreases a.len() - from,
{
    let s = a + seq![','] + b;
    if from < a.len() {
        assert(a.contains(a[from]));
        assert(s[from] == a[from]);
        lemma_first_comma(a, b, from + 1);
    } else {
        assert(s[from] == ',');
    }
}

/// The written form of a probe with plain names reads back as that probe.
pub proof fn law_label_reads_back(p: ProbeView)
    requires
        plain_probe(p),
    ensures
        parsed(label_of(p)) == Ok::<ProbeView, ErrorView>(p),
{
    let t = label_of(p);
    let inner = match p {
        ProbeView::NodeVoltage(a) => a,
        ProbeView::NodeDiff(a, b) => a + seq![','] + b,
        ProbeView::BranchCurrent(d) => d,
    };
    assert(t =~= seq![t[0], '('] + inner + seq![')']);
    assert(trimmed(t) == t);
    assert(t[1] == '(');
    assert(position_from(t, '(', 0) == position_from(t, '(', 1));
    assert(position_from(t, '(', 1) == 1);
    assert(t.subrange(2, t.len() - 1) =~= inner);
    assert(inner[0] == (match p {
        ProbeView::NodeVoltage(a) => a[0],
        ProbeView::NodeDiff(a, b) => a[0],
        ProbeView::BranchCurrent(d) => d[0],
    }));
    assert(inner.last() == (match p {
        ProbeView::NodeVoltage(a) => a.last(),
        ProbeView::NodeDiff(a, b) => b.last(),
        ProbeView::BranchCurrent(d) => d.last(),
    }));
    assert(trimmed(inner) == inner);
    assert(t.subrange(0, 1) =~= seq![t[0]]);
    assert(trimmed(seq![t[0]]) == seq![t[0]]);
    let head = lower(seq![t[0]]);
    assert(lower(trimmed(t.subrange(0, position_from(t, '(', 0)))) == head);
    assert(t.last() == ')');
    match p {
        ProbeView::NodeVoltage(a) => {
            assert(head =~= seq!['v']);
            lemma_no_comma(a, 0);
            assert(parsed(t) == parsed_voltage(t, inner));
        },
        ProbeView::NodeDiff(a, b) => {
            assert(head =~= seq!['v']);
            lemma_first_comma(a, b, 0);
            assert(inner.subrange(0, a.len() as int) =~= a);
            assert(inner.subrange(a.len() as int + 1, inner.len() as int) =~= b);
            lemma_no_comma(b, 0);
            assert(trimmed(a) == a);
            assert(trimmed(b) == b);
            assert(parsed(t) == parsed_voltage(t, inner));
        },
        ProbeView::BranchCurrent(d) => {
            assert(head =~= seq!['i']);
            lemma_no_comma(d, 0);
            assert('V' != 'I');
            assert(head[0] != 'v');
            assert(parsed(t) == parsed_current(t, inner));
        },
    }
}

} // verus!
