//! One character's track: its dialogue lines sorted by position, read through a cursor.
use vstd::prelude::*;

use crate::diagnostics::{anomalies_view, Anomaly, AnomalyModel};
use crate::text::{line_model, parse_line, LineModel, ParsedLine};

verus! {

/// A dialogue line: its position and its text.
pub type DialogueLine = (usize, String);

/// Positions never decrease along `s`.
pub open spec fn sorted_by_position(s: Seq<DialogueLine>) -> bool {
    forall|i: int, j: int| 0 <= i < j < s.len() ==> s[i].0 <= s[j].0
}

/// The texts of the lines of `s` at position `t`, in their order in `s`.
pub open spec fn lines_at(s: Seq<DialogueLine>, t: usize) -> Seq<Seq<char>>
    decreases s.len(),
{
    if s.len() == 0 {
        Seq::empty()
    } else if s.last().0 == t {
        lines_at(s.drop_last(), t).push(s.last().1@)
    } else {
        lines_at(s.drop_last(), t)
    }
}

/// `b` is a stable sort of `a` by position: sorted, and at each position the same texts in the
/// same order.
pub open spec fn stably_sorted_from(b: Seq<DialogueLine>, a: Seq<DialogueLine>) -> bool {
    &&& sorted_by_position(b)
    &&& forall|t: usize| #[trigger] lines_at(b, t) == lines_at(a, t)
}

/// The numbered lines among raw lines, in order.
pub open spec fn numbered_lines(raw: Seq<Seq<char>>) -> Seq<(usize, Seq<char>)>
    decreases raw.len(),
{
    if raw.len() == 0 {
        Seq::empty()
    } else {
        match line_model(raw.last()) {
            LineModel::Numbered(n, t) => numbered_lines(raw.drop_last()).push((n, t)),
            _ => numbered_lines(raw.drop_last()),
        }
    }
}

/// The leading tokens of the raw lines whose token is no position, in order.
pub open spec fn malformed_tokens(raw: Seq<Seq<char>>) -> Seq<Seq<char>>
    decreases raw.len(),
{
    if raw.len() == 0 {
        Seq::empty()
    } else {
        match line_model(raw.last()) {
            LineModel::Malformed(tok) => malformed_tokens(raw.drop_last()).push(tok),
            _ => malformed_tokens(raw.drop_last()),
        }
    }
}

pub open spec fn lines_model(s: Seq<DialogueLine>) -> Seq<(usize, Seq<char>)> {
    s.map_values(|l: DialogueLine| (l.0, l.1@))
}

pub open spec fn strings_view(v: Seq<String>) -> Seq<Seq<char>> {
    v.map_values(|s: String| s@)
}

/// The warnings for the given malformed tokens.
pub open spec fn bad_line_warnings(toks: Seq<Seq<char>>) -> Seq<AnomalyModel> {
    toks.map_values(|t: Seq<char>| AnomalyModel::BadLineNumber(t))
}

/// `p` is the character `name`, freshly prepared from the raw lines `raw`: its track holds their
/// numbered lines stably sorted by position, and is unread.
pub open spec fn prepared_from(p: Player, name: Seq<char>, raw: Seq<Seq<char>>) -> bool {
    &&& p.name() == name
    &&& p.cursor() == 0
    &&& p.wf()
    &&& exists|read: Seq<DialogueLine>|
        #![trigger lines_model(read)]
        lines_model(read) == numbered_lines(raw) && stably_sorted_from(p.lines(), read)
}

/// A character of the play and its track.
pub struct Player {
    character_name: String,
    character_lines: Vec<DialogueLine>,
    current_line: usize,
}

impl Player {
    /// The character's name.
    pub closed spec fn name(&self) -> Seq<char> {
        self.character_name@
    }

    /// The track's lines.
    pub closed spec fn lines(&self) -> Seq<DialogueLine> {
        self.character_lines@
    }

    /// The index of the next unread line.
    pub closed spec fn cursor(&self) -> nat {
        self.current_line as nat
    }

    /// The track is sorted by position and the cursor lies within it.
    pub open spec fn wf(&self) -> bool {
        sorted_by_position(self.lines()) && self.cursor() <= self.lines().len()
    }

    /// A character with no lines yet.
    pub fn new(name: &String) -> (r: Player)
        ensures
            r.name() == name@,
            r.lines() == Seq::<DialogueLine>::empty(),
            r.cursor() == 0,
            r.wf(),
    {
        Player { character_name: name.clone(), character_lines: Vec::new(), current_line: 0 }
    }

    /// A character whose track holds `lines`, stably sorted by position, and is unread.
    pub fn with_lines(name: &String, lines: &Vec<DialogueLine>) -> (r: Player)
        ensures
            r.name() == name@,
            stably_sorted_from(r.lines(), lines@),
            r.cursor() == 0,
            r.wf(),
    {
        let mut p = Player::new(name);
        p.character_lines = sort_by_position(lines);
        p
    }

    /// The character's name.
    pub fn name_str(&self) -> (r: &String)
        ensures
            r@ == self.name(),
    {
        &self.character_name
    }

    /// Reads one raw line into the track; the leading token of a malformed line comes back.
    fn add_script_line(&mut self, line: &String) -> (r: Option<String>)
        ensures
            final(self).name() == old(self).name(),
            final(self).cursor() == old(self).cursor(),
            match line_model(line@) {
                LineModel::Numbered(n, t) => lines_model(final(self).lines()) == lines_model(
                    old(self).lines(),
                ).push((n, t)) && r is None,
                LineModel::Malformed(tok) => final(self).lines() == old(self).lines() && (r
                    matches Some(s) && s@ == tok),
                LineModel::Ignored => final(self).lines() == old(self).lines() && r is None,
            },
            r matches Some(s) ==> line_model(line@) == LineModel::Malformed(s@),
    {
        match parse_line(line.as_str()) {
            ParsedLine::Numbered(n, t) => {
                let ghost before = self.character_lines@;
                self.character_lines.push((n, t));
                assert(lines_model(self.character_lines@) =~= lines_model(before).push(
                    (n, t@),
                ));
                None
            },
            ParsedLine::Malformed(tok) => Some(tok),
            ParsedLine::Ignored => None,
        }
    }

    /// Reads the raw lines of the character's part into the track and sorts it stably by
    /// position. Lines whose leading token is no position are dropped; with `diagnostics` each
    /// gives a warning naming the token.
    pub fn prepare(&mut self, part_lines: &Vec<String>, diagnostics: bool) -> (r: Vec<Anomaly>)
        ensures
            final(self).name() == old(self).name(),
            final(self).cursor() == old(self).cursor(),
            sorted_by_position(final(self).lines()),
            exists|read: Seq<DialogueLine>|
                #![trigger lines_model(read)]
                lines_model(read) == lines_model(old(self).lines()) + numbered_lines(
                    strings_view(part_lines@),
                ) && stably_sorted_from(final(self).lines(), read),
            old(self).cursor() <= old(self).lines().len() ==> final(self).wf(),
            anomalies_view(r@) == if diagnostics {
                bad_line_warnings(malformed_tokens(strings_view(part_lines@)))
            } else {
                Seq::empty()
            },
    {
        let mut warnings: Vec<Anomaly> = Vec::new();
        let ghost start = self.character_lines@;
        let mut i: usize = 0;
        while i < part_lines.len()
            invariant
                i <= part_lines.len(),
                self.name() == old(self).name(),
                self.cursor() == old(self).cursor(),
                lines_model(self.lines()) == lines_model(start) + numbered_lines(
                    strings_view(part_lines@.take(i as int)),
                ),
                start == old(self).lines(),
                anomalies_view(warnings@) == if diagnostics {
                    bad_line_warnings(malformed_tokens(strings_view(part_lines@.take(i as int))))
                } else {
                    Seq::empty()
                },
            decreases part_lines.len() - i,
        {
            let ghost raw_before = strings_view(part_lines@.take(i as int));
            let ghost raw_after = strings_view(part_lines@.take(i + 1));
            assert(raw_after.drop_last() =~= raw_before);
            assert(raw_after.last() == part_lines@[i as int]@);
            let ghost w_before = warnings@;
            let bad = self.add_script_line(&part_lines[i]);
            match bad {
                Some(tok) => {
                    if diagnostics {
                        warnings.push(Anomaly::BadLineNumber(tok));
                        assert(anomalies_view(warnings@) =~= anomalies_view(w_before).push(
                            AnomalyModel::BadLineNumber(tok@),
                        ));
                    }
                },
                None => {},
            }
            assert(bad_line_warnings(malformed_tokens(raw_after)) =~= if line_model(
                raw_after.last(),
            ) is Malformed {
                bad_line_warnings(malformed_tokens(raw_before)).push(
                    AnomalyModel::BadLineNumber(line_model(raw_after.last())->Malformed_0),
                )
            } else {
                bad_line_warnings(malformed_tokens(raw_before))
            });
            assert(lines_model(self.lines()) =~= lines_model(start) + numbered_lines(raw_after));
            i = i + 1;
        }
        assert(part_lines@.take(part_lines.len() as int) =~= part_lines@);
        let ghost read = self.character_lines@;
        self.character_lines = sort_by_position(&self.character_lines);
        assert(lines_model(read) == lines_model(old(self).lines()) + numbered_lines(
            strings_view(part_lines@),
        ));
        assert(read.len() == lines_model(read).len());
        assert(old(self).lines().len() == lines_model(old(self).lines()).len());
        warnings
    }

    /// The position of the next unread line, or `None` once the track is exhausted.
    pub fn next_line(&self) -> (r: Option<usize>)
        ensures
            r == if self.cursor() < self.lines().len() {
                Some(self.lines()[self.cursor() as int].0)
            } else {
                None::<usize>
            },
    {
        if self.current_line < self.character_lines.len() {
            Some(self.character_lines[self.current_line].0)
        } else {
            None
        }
    }

    /// Reads the next line if it stands at position `t`: its text comes back and the cursor
    /// moves past it. Otherwise nothing changes.
    pub fn advance_if_at(&mut self, t: usize) -> (r: Option<String>)
        ensures
            final(self).name() == old(self).name(),
            final(self).lines() == old(self).lines(),
            final(self).cursor() <= usize::MAX,
            if old(self).cursor() < old(self).lines().len() && old(self).lines()[old(
                self,
            ).cursor() as int].0 == t {
                &&& final(self).cursor() == old(self).cursor() + 1
                &&& r matches Some(s) && s@ == old(self).lines()[old(self).cursor() as int].1@
            } else {
                final(self).cursor() == old(self).cursor() && r is None
            },
    {
        if self.current_line < self.character_lines.len() && self.character_lines[self.current_line].0 == t {
            let text = self.character_lines[self.current_line].1.clone();
            self.current_line = self.current_line + 1;
            Some(text)
        } else {
            None
        }
    }
}

/// `lines_at` of a concatenation is the concatenation.
pub proof fn lemma_lines_at_append(a: Seq<DialogueLine>, b: Seq<DialogueLine>, t: usize)
    ensures
        lines_at(a + b, t) == lines_at(a, t) + lines_at(b, t),
    decreases b.len(),
{
    if b.len() == 0 {
        assert(a + b =~= a);
        assert(lines_at(b, t) =~= Seq::<Seq<char>>::empty());
        assert(lines_at(a, t) + lines_at(b, t) =~= lines_at(a, t));
    } else {
        assert((a + b).drop_last() =~= a + b.drop_last());
        lemma_lines_at_append(a, b.drop_last(), t);
        if b.last().0 == t {
            assert(lines_at(a, t) + lines_at(b, t) =~= (lines_at(a, t) + lines_at(
                b.drop_last(),
                t,
            )).push(b.last().1@));
        }
    }
}

/// A sequence with no line at `t` has no text at `t`.
pub proof fn lemma_lines_at_none(s: Seq<DialogueLine>, t: usize)
    requires
        forall|i: int| 0 <= i < s.len() ==> s[i].0 != t,
    ensures
        lines_at(s, t) == Seq::<Seq<char>>::empty(),
    decreases s.len(),
{
    if s.len() > 0 {
        lemma_lines_at_none(s.drop_last(), t);
    }
}

/// Inserting `x` where the sorted order puts it last among its position keeps `s` sorted and adds
/// its text at its position alone.
proof fn lemma_sorted_insert(s: Seq<DialogueLine>, j: int, x: DialogueLine)
    requires
        sorted_by_position(s),
        0 <= j <= s.len(),
        forall|i: int| 0 <= i < j ==> s[i].0 <= x.0,
        forall|i: int| j <= i < s.len() ==> s[i].0 > x.0,
    ensures
        sorted_by_position(s.insert(j, x)),
        forall|t: usize| #[trigger]
            lines_at(s.insert(j, x), t) == if x.0 == t {
                lines_at(s, t).push(x.1@)
            } else {
                lines_at(s, t)
            },
{
    let lo = s.subrange(0, j);
    let hi = s.subrange(j, s.len() as int);
    assert(s =~= lo + hi);
    assert(s.insert(j, x) =~= lo.push(x) + hi);
    assert forall|t: usize| #[trigger]
        lines_at(s.insert(j, x), t) == if x.0 == t {
            lines_at(s, t).push(x.1@)
        } else {
            lines_at(s, t)
        } by {
        lemma_lines_at_append(lo.push(x), hi, t);
        lemma_lines_at_append(lo, hi, t);
        assert(lo.push(x).drop_last() =~= lo);
        if x.0 == t {
            lemma_lines_at_none(hi, t);
            assert(lines_at(hi, t) =~= Seq::<Seq<char>>::empty());
            assert(lines_at(lo, t) + lines_at(hi, t) =~= lines_at(lo, t));
            assert(lines_at(lo.push(x), t) + lines_at(hi, t) =~= lines_at(lo.push(x), t));
        }
    }
}

/// A copy of `v` stably sorted by position.
pub fn sort_by_position(v: &Vec<DialogueLine>) -> (r: Vec<DialogueLine>)
    ensures
        stably_sorted_from(r@, v@),
        r@.len() == v@.len(),
{
    let mut out: Vec<DialogueLine> = Vec::new();
    let mut k: usize = 0;
    while k < v.len()
        invariant
            k <= v.len(),
            stably_sorted_from(out@, v@.take(k as int)),
            out@.len() == k,
        decreases v.len() - k,
    {
        let x: DialogueLine = (v[k].0, v[k].1.clone());
        let mut j: usize = out.len();
        while j > 0 && out[j - 1].0 > x.0
            invariant
                j <= out.len(),
                sorted_by_position(out@),
                forall|i: int| j <= i < out.len() ==> out@[i].0 > x.0,
            decreases j,
        {
            j = j - 1;
        }
        let ghost before = out@;
        proof {
            lemma_sorted_insert(before, j as int, x);
            let prefix = v@.take(k as int);
            let next = v@.take(k + 1);
            assert(next.drop_last() =~= prefix);
            assert(next.last() == v@[k as int]);
        }
        out.insert(j, x);
        k = k + 1;
    }
    assert(v@.take(v.len() as int) =~= v@);
    out
}

} // verus!
