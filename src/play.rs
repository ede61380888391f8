//! The play: a title and its characters' tracks, merged into one recitation by a tick sweep.
use vstd::prelude::*;

use crate::diagnostics::{anomalies_view, names_view, Anomaly, AnomalyModel};
use crate::player::{
    bad_line_warnings, numbered_lines, stably_sorted_from, lemma_lines_at_append, lemma_lines_at_none, lines_at, lines_model,
    malformed_tokens, prepared_from, strings_view, DialogueLine, Player,
};
use crate::laws::lemma_same_tracks_tick_parts;
use crate::text::{chars_of, string_of};

verus! {

/// A spoken line tagged with its speaker: (character name, text).
pub type Speech = (String, String);

pub open spec fn speech_view(v: Seq<Speech>) -> Seq<(Seq<char>, Seq<char>)> {
    v.map_values(|s: Speech| (s.0@, s.1@))
}

/// The texts `xs`, each tagged with the speaker `who`.
pub open spec fn tagged(who: Seq<char>, xs: Seq<Seq<char>>) -> Seq<(Seq<char>, Seq<char>)> {
    xs.map_values(|x: Seq<char>| (who, x))
}

/// What the tracks say at tick `t`: track by track in configuration order, each track's lines
/// at `t` in track order.
pub open spec fn tick_speech(ps: Seq<Player>, t: usize) -> Seq<(Seq<char>, Seq<char>)>
    decreases ps.len(),
{
    if ps.len() == 0 {
        Seq::empty()
    } else {
        tick_speech(ps.drop_last(), t) + tagged(ps.last().name(), lines_at(ps.last().lines(), t))
    }
}

/// What the tracks say over the ticks `0 .. n`.
pub open spec fn speech_before(ps: Seq<Player>, n: nat) -> Seq<(Seq<char>, Seq<char>)>
    decreases n,
{
    if n == 0 {
        Seq::empty()
    } else {
        speech_before(ps, (n - 1) as nat) + tick_speech(ps, (n - 1) as usize)
    }
}

/// The distinct names of the characters with a line at tick `t`, in configuration order.
pub open spec fn speakers_at(ps: Seq<Player>, t: usize) -> Seq<Seq<char>>
    decreases ps.len(),
{
    if ps.len() == 0 {
        Seq::empty()
    } else {
        let prev = speakers_at(ps.drop_last(), t);
        if lines_at(ps.last().lines(), t).len() > 0 && !prev.contains(ps.last().name()) {
            prev.push(ps.last().name())
        } else {
            prev
        }
    }
}

/// One warning per track with more than one line at tick `t`, in configuration order.
pub open spec fn duplicates_at(ps: Seq<Player>, t: usize) -> Seq<AnomalyModel>
    decreases ps.len(),
{
    if ps.len() == 0 {
        Seq::empty()
    } else {
        let n = lines_at(ps.last().lines(), t).len();
        if n > 1 {
            duplicates_at(ps.drop_last(), t).push(
                AnomalyModel::DuplicateLines(t, ps.last().name(), n),
            )
        } else {
            duplicates_at(ps.drop_last(), t)
        }
    }
}

/// The anomalies of tick `t`: duplicate lines per speaker, then overlapping speakers, then
/// silence.
pub open spec fn tick_anomalies(ps: Seq<Player>, t: usize) -> Seq<AnomalyModel> {
    let who = speakers_at(ps, t);
    duplicates_at(ps, t) + if who.len() > 1 {
        seq![AnomalyModel::OverlappingSpeakers(t, who)]
    } else {
        Seq::empty()
    } + if who.len() == 0 {
        seq![AnomalyModel::SilentTick(t)]
    } else {
        Seq::empty()
    }
}

/// The anomalies of the ticks `0 .. n`.
pub open spec fn anomalies_before(ps: Seq<Player>, n: nat) -> Seq<AnomalyModel>
    decreases n,
{
    if n == 0 {
        Seq::empty()
    } else {
        anomalies_before(ps, (n - 1) as nat) + tick_anomalies(ps, (n - 1) as usize)
    }
}

/// The largest position in `s`, or 0.
pub open spec fn last_in(s: Seq<DialogueLine>) -> nat
    decreases s.len(),
{
    if s.len() == 0 {
        0
    } else if last_in(s.drop_last()) >= s.last().0 {
        last_in(s.drop_last())
    } else {
        s.last().0 as nat
    }
}

/// The largest position over all tracks, or 0.
pub open spec fn last_position(ps: Seq<Player>) -> nat
    decreases ps.len(),
{
    if ps.len() == 0 {
        0
    } else if last_position(ps.drop_last()) >= last_in(ps.last().lines()) {
        last_position(ps.drop_last())
    } else {
        last_in(ps.last().lines())
    }
}

/// How many ticks a recitation runs: none without tracks, else through the last position.
pub open spec fn tick_count(ps: Seq<Player>) -> nat {
    if ps.len() == 0 {
        0
    } else {
        last_position(ps) + 1
    }
}

/// Each track is sorted and unread.
pub open spec fn fresh_tracks(ps: Seq<Player>) -> bool {
    forall|k: int| #![trigger ps[k]] 0 <= k < ps.len() ==> ps[k].wf() && ps[k].cursor() == 0
}

/// The printed form of a run of speech: before each line whose speaker differs from the
/// previous line's (and before the first), a blank line and the speaker's name with a period.
pub open spec fn render_speech(s: Seq<(Seq<char>, Seq<char>)>) -> Seq<Seq<char>>
    decreases s.len(),
{
    if s.len() == 0 {
        Seq::empty()
    } else {
        let prev = render_speech(s.drop_last());
        let who = s.last().0;
        if s.len() == 1 || s[s.len() - 2].0 != who {
            prev + seq![Seq::<char>::empty(), who.push('.'), s.last().1]
        } else {
            prev.push(s.last().1)
        }
    }
}

/// The printed recitation: the title, then the rendered speech.
pub open spec fn recitation_text(title: Seq<char>, s: Seq<(Seq<char>, Seq<char>)>) -> Seq<
    Seq<char>,
> {
    seq![title] + render_speech(s)
}

/// The cursor of `p` stands at the first line at or after position `t`.
pub open spec fn cursor_at(p: Player, t: int) -> bool {
    &&& forall|i: int| 0 <= i < p.cursor() ==> #[trigger] p.lines()[i].0 < t
    &&& forall|i: int| p.cursor() <= i < p.lines().len() ==> #[trigger] p.lines()[i].0 >= t
}

/// `a` and `b` hold the same characters with the same lines.
pub open spec fn same_tracks(a: Seq<Player>, b: Seq<Player>) -> bool {
    &&& a.len() == b.len()
    &&& forall|k: int|
        #![trigger a[k]]
        0 <= k < a.len() ==> a[k].name() == b[k].name() && a[k].lines() == b[k].lines() && a[k].wf()
}

/// Whether `v` holds a string equal to `n`.
pub fn contains_name(v: &Vec<String>, n: &String) -> (r: bool)
    ensures
        r == strings_view(v@).contains(n@),
{
    let mut i: usize = 0;
    while i < v.len()
        invariant
            i <= v.len(),
            forall|j: int| 0 <= j < i ==> v@[j]@ != n@,
        decreases v.len() - i,
    {
        if v[i] == *n {
            assert(strings_view(v@)[i as int] == n@);
            return true;
        }
        i = i + 1;
    }
    assert(!strings_view(v@).contains(n@)) by {
        assert forall|j: int| 0 <= j < strings_view(v@).len() implies strings_view(v@)[j] != n@ by {
            assert(strings_view(v@)[j] == v@[j]@);
        }
    }
    false
}


/// Between a cursor that stands before position `t` and one past the lines at `t`, each line
/// adds one text at `t`.
proof fn lemma_lines_at_count(lines: Seq<DialogueLine>, c0: int, c: int, t: usize)
    requires
        0 <= c0 <= c <= lines.len(),
        forall|i: int| 0 <= i < c0 ==> #[trigger] lines[i].0 < t,
        forall|i: int| c0 <= i < c ==> #[trigger] lines[i].0 == t,
    ensures
        lines_at(lines.take(c), t).len() == c - c0,
    decreases c - c0,
{
    if c == c0 {
        lemma_lines_at_none(lines.take(c0), t);
    } else {
        lemma_lines_at_count(lines, c0, c - 1, t);
        assert(lines.take(c).drop_last() =~= lines.take(c - 1));
    }
}

/// Reads, from the track `players[k]`, every line at tick `t`, appending each to `speech`, and
/// returns how many there were.
fn read_track_at(
    players: &mut Vec<Player>,
    k: usize,
    t: usize,
    speech: &mut Vec<Speech>,
) -> (count: usize)
    requires
        k < old(players)@.len(),
        old(players)@[k as int].wf(),
        cursor_at(old(players)@[k as int], t as int),
    ensures
        final(players)@.len() == old(players)@.len(),
        forall|j: int| 0 <= j < old(players)@.len() && j != k ==> final(players)@[j] == old(players)@[j],
        final(players)@[k as int].name() == old(players)@[k as int].name(),
        final(players)@[k as int].lines() == old(players)@[k as int].lines(),
        final(players)@[k as int].wf(),
        cursor_at(final(players)@[k as int], t + 1),
        count == lines_at(old(players)@[k as int].lines(), t).len(),
        speech_view(final(speech)@) == speech_view(old(speech)@) + tagged(
            old(players)@[k as int].name(),
            lines_at(old(players)@[k as int].lines(), t),
        ),
{
    let ghost p0 = players@[k as int];
    let ghost lines = p0.lines();
    let ghost who = p0.name();
    let ghost c0 = p0.cursor() as int;
    let ghost base = speech_view(speech@);
    let name = players[k].name_str().clone();
    proof {
        lemma_lines_at_none(lines.take(c0), t);
        assert(tagged(who, lines_at(lines.take(c0), t)) =~= Seq::<(Seq<char>, Seq<char>)>::empty());
        assert(base + tagged(who, lines_at(lines.take(c0), t)) =~= base);
    }
    proof {
        lemma_lines_at_none(lines.take(c0), t);
    }
    let mut count: usize = 0;
    loop
        invariant
            k < players@.len() == old(players)@.len(),
            p0 == old(players)@[k as int],
            lines == p0.lines(),
            who == p0.name(),
            name@ == who,
            c0 == p0.cursor(),
            p0.wf(),
            cursor_at(p0, t as int),
            forall|j: int| 0 <= j < old(players)@.len() && j != k ==> players@[j] == old(players)@[j],
            players@[k as int].name() == who,
            players@[k as int].lines() == lines,
            c0 <= players@[k as int].cursor() <= lines.len(),
            forall|i: int| c0 <= i < players@[k as int].cursor() ==> #[trigger] lines[i].0 == t,
            count == players@[k as int].cursor() - c0,
            speech_view(speech@) == base + tagged(
                who,
                lines_at(lines.take(players@[k as int].cursor() as int), t),
            ),
        ensures
            players@[k as int].cursor() == lines.len() || lines[players@[k as int].cursor() as int].0
                != t,
        decreases lines.len() - players@[k as int].cursor(),
    {
        let ghost c = players@[k as int].cursor() as int;
        let ghost sv = speech@;
        match players[k].advance_if_at(t) {
            Some(text) => {
                proof {
                    assert(lines.take(c + 1).drop_last() =~= lines.take(c));
                    assert(lines.take(c + 1).last() == lines[c]);
                }
                speech.push((name.clone(), text));
                proof {
                    let l = lines_at(lines.take(c), t);
                    assert(lines_at(lines.take(c + 1), t) == l.push(text@));
                    assert(tagged(who, l.push(text@)) =~= tagged(who, l).push((who, text@)));
                    assert(speech_view(speech@) =~= speech_view(sv).push((name@, text@)));
                }
                count = count + 1;
            },
            None => {
                break ;
            },
        }
    }
    proof {
        let c = players@[k as int].cursor() as int;
        assert forall|i: int| c <= i < lines.len() implies #[trigger] lines[i].0 > t by {
            assert(lines[c].0 >= t);
            assert(lines[c].0 <= lines[i].0);
        }
        lemma_lines_at_none(lines.skip(c), t);
        assert(lines =~= lines.take(c) + lines.skip(c));
        lemma_lines_at_append(lines.take(c), lines.skip(c), t);
        lemma_lines_at_count(lines, c0, c, t);
        assert(lines_at(lines.take(c), t) + lines_at(lines.skip(c), t) =~= lines_at(lines.take(c), t));
        let pk = players@[k as int];
        assert forall|i: int| 0 <= i < pk.cursor() implies #[trigger] pk.lines()[i].0 < t + 1 by {
            if i >= c0 {
                assert(lines[i].0 == t);
            } else {
                assert(p0.lines()[i].0 < t);
            }
        }
    }
    count
}


/// Runs tick `t`: reads every track's lines at `t` in configuration order, appending them to
/// `speech`, and, with `diagnostics`, the tick's anomalies to `warnings`. Returns whether any
/// track has lines left.
fn run_tick(
    players: &mut Vec<Player>,
    t: usize,
    diagnostics: bool,
    speech: &mut Vec<Speech>,
    warnings: &mut Vec<Anomaly>,
) -> (left: bool)
    requires
        forall|k: int|
            0 <= k < old(players)@.len() ==> #[trigger] old(players)@[k].wf() && cursor_at(
                old(players)@[k],
                t as int,
            ),
    ensures
        same_tracks(final(players)@, old(players)@),
        forall|k: int|
            0 <= k < final(players)@.len() ==> #[trigger] cursor_at(final(players)@[k], t + 1),
        speech_view(final(speech)@) == speech_view(old(speech)@) + tick_speech(old(players)@, t),
        anomalies_view(final(warnings)@) == anomalies_view(old(warnings)@) + if diagnostics {
            tick_anomalies(old(players)@, t)
        } else {
            Seq::empty()
        },
        left == exists|k: int|
            0 <= k < final(players)@.len() && #[trigger] final(players)@[k].cursor()
                < final(players)@[k].lines().len(),
{
    let ghost ps = players@;
    let ghost sv0 = speech_view(speech@);
    let ghost wv0 = anomalies_view(warnings@);
    let n = players.len();
    let mut speakers: Vec<String> = Vec::new();
    let mut left = false;
    let mut k: usize = 0;
    assert(ps.take(0) =~= Seq::<Player>::empty());
    assert(wv0 + Seq::<AnomalyModel>::empty() =~= wv0);
    assert(sv0 + Seq::<(Seq<char>, Seq<char>)>::empty() =~= sv0);
    while k < n
        invariant
            k <= n == players@.len() == ps.len(),
            ps == old(players)@,
            sv0 == speech_view(old(speech)@),
            wv0 == anomalies_view(old(warnings)@),
            forall|j: int|
                0 <= j < n ==> #[trigger] players@[j].name() == ps[j].name() && players@[j].lines()
                    == ps[j].lines() && players@[j].wf(),
            forall|j: int| 0 <= j < k ==> #[trigger] cursor_at(players@[j], t + 1),
            forall|j: int| k <= j < n ==> #[trigger] players@[j] == ps[j],
            forall|j: int|
                0 <= j < n ==> #[trigger] ps[j].wf() && cursor_at(ps[j], t as int),
            speech_view(speech@) == sv0 + tick_speech(ps.take(k as int), t),
            strings_view(speakers@) == speakers_at(ps.take(k as int), t),
            anomalies_view(warnings@) == wv0 + if diagnostics {
                duplicates_at(ps.take(k as int), t)
            } else {
                Seq::empty()
            },
            left == exists|j: int|
                0 <= j < k && #[trigger] players@[j].cursor() < players@[j].lines().len(),
        decreases n - k,
    {
        let ghost pre = ps.take(k as int);
        let ghost post = ps.take(k + 1);
        let ghost players_before = players@;
        let ghost sv = speech_view(speech@);
        let ghost wv = anomalies_view(warnings@);
        let ghost spk = strings_view(speakers@);
        assert(post.drop_last() =~= pre);
        assert(post.last() == ps[k as int]);
        let name = players[k].name_str().clone();
        let count = read_track_at(players, k, t, speech);
        assert(speech_view(speech@) =~= sv0 + tick_speech(post, t));
        if diagnostics && count > 1 {
            warnings.push(Anomaly::DuplicateLines(t, name.clone(), count));
            assert(anomalies_view(warnings@) =~= wv.push(
                AnomalyModel::DuplicateLines(t, name@, count as nat),
            ));
        }
        assert(anomalies_view(warnings@) =~= wv0 + if diagnostics {
            duplicates_at(post, t)
        } else {
            Seq::empty()
        });
        if count > 0 && !contains_name(&speakers, &name) {
            speakers.push(name);
            assert(strings_view(speakers@) =~= spk.push(ps[k as int].name()));
        }
        assert(strings_view(speakers@) == speakers_at(post, t));
        match players[k].next_line() {
            Some(_) => {
                left = true;
            },
            None => {},
        }
        assert(left == exists|j: int|
            0 <= j < k + 1 && #[trigger] players@[j].cursor() < players@[j].lines().len()) by {
            if players@[k as int].cursor() < players@[k as int].lines().len() {
                assert(left);
            }
            if left && !(players@[k as int].cursor() < players@[k as int].lines().len()) {
                let j = choose|j: int|
                    0 <= j < k && #[trigger] players_before[j].cursor()
                        < players_before[j].lines().len();
                assert(players@[j] == players_before[j]);
            }
        }
        k = k + 1;
    }
    assert(ps.take(n as int) =~= ps);
    let n_speakers = speakers.len();
    let ghost who = speakers_at(ps, t);
    let ghost w1 = anomalies_view(warnings@);
    if diagnostics && n_speakers > 1 {
        warnings.push(Anomaly::OverlappingSpeakers(t, speakers));
        assert(anomalies_view(warnings@) =~= w1.push(AnomalyModel::OverlappingSpeakers(t, who)));
    }
    let ghost w2 = anomalies_view(warnings@);
    if diagnostics && n_speakers == 0 {
        warnings.push(Anomaly::SilentTick(t));
        assert(anomalies_view(warnings@) =~= w2.push(AnomalyModel::SilentTick(t)));
    }
    assert(anomalies_view(warnings@) =~= wv0 + if diagnostics {
        tick_anomalies(ps, t)
    } else {
        Seq::empty()
    });
    left
}


proof fn lemma_last_in_ge(s: Seq<DialogueLine>, i: int)
    requires
        0 <= i < s.len(),
    ensures
        s[i].0 <= last_in(s),
    decreases s.len(),
{
    if i < s.len() - 1 {
        lemma_last_in_ge(s.drop_last(), i);
    }
}

proof fn lemma_last_in_le(s: Seq<DialogueLine>, b: nat)
    requires
        forall|i: int| 0 <= i < s.len() ==> #[trigger] s[i].0 <= b,
    ensures
        last_in(s) <= b,
    decreases s.len(),
{
    if s.len() > 0 {
        lemma_last_in_le(s.drop_last(), b);
    }
}

proof fn lemma_last_position_ge(ps: Seq<Player>, k: int, i: int)
    requires
        0 <= k < ps.len(),
        0 <= i < ps[k].lines().len(),
    ensures
        ps[k].lines()[i].0 <= last_position(ps),
    decreases ps.len(),
{
    if k < ps.len() - 1 {
        lemma_last_position_ge(ps.drop_last(), k, i);
    } else {
        lemma_last_in_ge(ps[k].lines(), i);
    }
}

proof fn lemma_last_position_le(ps: Seq<Player>, b: nat)
    requires
        forall|k: int, i: int|
            0 <= k < ps.len() && 0 <= i < ps[k].lines().len() ==> #[trigger] ps[k].lines()[i].0
                <= b,
    ensures
        last_position(ps) <= b,
    decreases ps.len(),
{
    if ps.len() > 0 {
        let last = ps.len() - 1;
        assert forall|i: int| 0 <= i < ps[last].lines().len() implies #[trigger] ps[last].lines()[i].0 <= b by {
            assert(ps[last].lines()[i].0 <= b);
        }
        assert(ps.last() == ps[last]);
        lemma_last_in_le(ps.last().lines(), b);
        assert forall|k: int, i: int|
            0 <= k < ps.drop_last().len() && 0 <= i < ps.drop_last()[k].lines().len() implies #[trigger] ps.drop_last()[k].lines()[i].0
                <= b by {
            assert(ps.drop_last()[k] == ps[k]);
            assert(ps[k].lines()[i].0 <= b);
        }
        lemma_last_position_le(ps.drop_last(), b);
    }
}

/// Sweeps the ticks from 0 until every track is exhausted, returning what was said and, with
/// `diagnostics`, the anomalies seen.
fn schedule(players: &mut Vec<Player>, diagnostics: bool) -> (r: (Vec<Speech>, Vec<Anomaly>))
    requires
        fresh_tracks(old(players)@),
    ensures
        same_tracks(final(players)@, old(players)@),
        forall|k: int|
            0 <= k < final(players)@.len() ==> #[trigger] final(players)@[k].cursor()
                == final(players)@[k].lines().len(),
        speech_view(r.0@) == speech_before(old(players)@, tick_count(old(players)@)),
        anomalies_view(r.1@) == if diagnostics {
            anomalies_before(old(players)@, tick_count(old(players)@))
        } else {
            Seq::empty()
        },
{
    let ghost ps = players@;
    let mut speech: Vec<Speech> = Vec::new();
    let mut warnings: Vec<Anomaly> = Vec::new();
    assert(speech_view(speech@) =~= Seq::<(Seq<char>, Seq<char>)>::empty());
    assert(anomalies_view(warnings@) =~= Seq::<AnomalyModel>::empty());
    if players.len() == 0 {
        return (speech, warnings);
    }
    let mut t: usize = 0;
    assert forall|k: int| 0 <= k < players@.len() implies #[trigger] cursor_at(players@[k], 0) by {
        assert(ps[k].wf() && ps[k].cursor() == 0);
        assert forall|i: int| 0 <= i < ps[k].lines().len() implies #[trigger] ps[k].lines()[i].0 >= 0 by {}
    }
    loop
        invariant_except_break
            forall|k: int| 0 <= k < players@.len() ==> #[trigger] cursor_at(players@[k], t as int),
            speech_view(speech@) == speech_before(ps, t as nat),
            anomalies_view(warnings@) == if diagnostics {
                anomalies_before(ps, t as nat)
            } else {
                Seq::empty()
            },
        invariant
            ps == old(players)@,
            ps.len() > 0,
            same_tracks(players@, ps),
            t > 0 ==> exists|k: int, i: int|
                0 <= k < ps.len() && 0 <= i < ps[k].lines().len() && #[trigger] ps[k].lines()[i].0
                    >= t,
        ensures
            same_tracks(players@, ps),
            forall|k: int|
                0 <= k < players@.len() ==> #[trigger] players@[k].cursor()
                    == players@[k].lines().len(),
            speech_view(speech@) == speech_before(ps, tick_count(ps)),
            anomalies_view(warnings@) == if diagnostics {
                anomalies_before(ps, tick_count(ps))
            } else {
                Seq::empty()
            },
        decreases usize::MAX - t,
    {
        let ghost before = players@;
        assert forall|k: int| 0 <= k < players@.len() implies #[trigger] players@[k].wf()
            && cursor_at(players@[k], t as int) by {
            assert(players@[k].wf());
        }
        let left = run_tick(players, t, diagnostics, &mut speech, &mut warnings);
        proof {
            lemma_same_tracks_tick_parts(before, ps, t);
            assert(tick_anomalies(before, t) == tick_anomalies(ps, t));
            assert(speech_before(ps, (t + 1) as nat) == speech_before(ps, t as nat) + tick_speech(ps, t));
            assert(anomalies_before(ps, (t + 1) as nat) == anomalies_before(ps, t as nat)
                + tick_anomalies(ps, t));
            if diagnostics {
                assert(anomalies_view(warnings@) =~= anomalies_before(ps, (t + 1) as nat));
            } else {
                assert(anomalies_view(warnings@) =~= Seq::<AnomalyModel>::empty());
            }
        }
        if !left {
            proof {
                assert forall|k: int, i: int|
                    0 <= k < ps.len() && 0 <= i < ps[k].lines().len() implies #[trigger] ps[k].lines()[i].0
                        <= t as nat by {
                    assert(players@[k].lines() == ps[k].lines());
                    assert(cursor_at(players@[k], t + 1));
                    assert(players@[k].cursor() == players@[k].lines().len());
                }
                lemma_last_position_le(ps, t as nat);
                if t > 0 {
                    let (k, i) = choose|k: int, i: int|
                        0 <= k < ps.len() && 0 <= i < ps[k].lines().len() && #[trigger] ps[k].lines()[i].0
                            >= t;
                    lemma_last_position_ge(ps, k, i);
                }
                assert(tick_count(ps) == t + 1);
            }
            break ;
        }
        proof {
            let k = choose|k: int|
                0 <= k < players@.len() && #[trigger] players@[k].cursor()
                    < players@[k].lines().len();
            let i = players@[k].cursor() as int;
            assert(cursor_at(players@[k], t + 1));
            assert(players@[k].lines()[i].0 >= t + 1);
            assert(ps[k].lines()[i].0 >= t + 1);
        }
        t = t + 1;
    }
    (speech, warnings)
}


/// A character's name and the raw lines of its part, in configuration order.
pub type PartLines = Vec<(String, Vec<String>)>;

/// The warnings for the malformed lines of each part, part by part.
pub open spec fn part_warnings(parts: Seq<(String, Vec<String>)>) -> Seq<AnomalyModel>
    decreases parts.len(),
{
    if parts.len() == 0 {
        Seq::empty()
    } else {
        part_warnings(parts.drop_last()) + bad_line_warnings(
            malformed_tokens(strings_view(parts.last().1@)),
        )
    }
}

/// The printed lines of a recitation: the title, then each spoken line, with a blank line and
/// the speaker's name and a period before it wherever the speaker changes.
pub fn render(title: &String, speech: &Vec<Speech>) -> (r: Vec<String>)
    ensures
        strings_view(r@) == recitation_text(title@, speech_view(speech@)),
{
    let mut out: Vec<String> = Vec::new();
    out.push(title.clone());
    let ghost sv = speech_view(speech@);
    let mut i: usize = 0;
    while i < speech.len()
        invariant
            i <= speech.len(),
            sv == speech_view(speech@),
            strings_view(out@) == recitation_text(title@, sv.take(i as int)),
        decreases speech.len() - i,
    {
        let ghost before = strings_view(out@);
        let ghost next = sv.take(i + 1);
        assert(next.drop_last() =~= sv.take(i as int));
        assert(next.last() == sv[i as int]);
        if i == 0 || speech[i - 1].0 != speech[i].0 {
            let mut header = chars_of(speech[i].0.as_str());
            header.push('.');
            out.push(String::new());
            out.push(string_of(&header));
            out.push(speech[i].1.clone());
            assert(strings_view(out@) =~= before + seq![
                Seq::<char>::empty(),
                sv[i as int].0.push('.'),
                sv[i as int].1,
            ]);
        } else {
            assert(next[next.len() - 2] == sv[i - 1]);
            out.push(speech[i].1.clone());
            assert(strings_view(out@) =~= before.push(sv[i as int].1));
        }
        assert(strings_view(out@) =~= recitation_text(title@, next));
        i = i + 1;
    }
    assert(sv.take(speech.len() as int) =~= sv);
    out
}

/// A recitation: the printed lines and, where asked for, the anomalies seen.
pub struct Recitation {
    pub lines: Vec<String>,
    pub warnings: Vec<Anomaly>,
}

/// A play: its title and its characters in configuration order.
pub struct Play {
    play_title: String,
    play_characters: Vec<Player>,
}

impl Play {
    /// The play's title.
    pub closed spec fn title(&self) -> Seq<char> {
        self.play_title@
    }

    /// The play's characters, in configuration order.
    pub closed spec fn characters(&self) -> Seq<Player> {
        self.play_characters@
    }

    /// A play with no title and no characters.
    pub fn new() -> (r: Play)
        ensures
            r.title() == Seq::<char>::empty(),
            r.characters() == Seq::<Player>::empty(),
    {
        Play { play_title: String::new(), play_characters: Vec::new() }
    }

    /// Adds one character per configured part, in order, each prepared from the raw lines of
    /// its part. With `diagnostics` the malformed lines are reported, part by part.
    pub fn process_config(&mut self, config: &PartLines, diagnostics: bool) -> (r: Vec<Anomaly>)
        ensures
            final(self).title() == old(self).title(),
            final(self).characters().len() == old(self).characters().len() + config@.len(),
            forall|k: int|
                0 <= k < old(self).characters().len() ==> #[trigger] final(self).characters()[k]
                    == old(self).characters()[k],
            forall|i: int|
                0 <= i < config@.len() ==> #[trigger] prepared_from(
                    final(self).characters()[old(self).characters().len() + i],
                    config@[i].0@,
                    strings_view(config@[i].1@),
                ),
            anomalies_view(r@) == if diagnostics {
                part_warnings(config@)
            } else {
                Seq::empty()
            },
    {
        let ghost n0 = self.play_characters@.len();
        let mut warnings: Vec<Anomaly> = Vec::new();
        let mut i: usize = 0;
        assert(config@.take(0) =~= Seq::<(String, Vec<String>)>::empty());
        assert(anomalies_view(warnings@) =~= Seq::<AnomalyModel>::empty());
        while i < config.len()
            invariant
                i <= config.len(),
                self.title() == old(self).title(),
                self.characters().len() == n0 + i,
                n0 == old(self).characters().len(),
                forall|k: int|
                    0 <= k < n0 ==> #[trigger] self.characters()[k] == old(self).characters()[k],
                forall|j: int|
                    0 <= j < i ==> #[trigger] prepared_from(
                        self.characters()[n0 + j],
                        config@[j].0@,
                        strings_view(config@[j].1@),
                    ),
                anomalies_view(warnings@) == if diagnostics {
                    part_warnings(config@.take(i as int))
                } else {
                    Seq::empty()
                },
            decreases config.len() - i,
        {
            let mut character = Player::new(&config[i].0);
            let mut found = character.prepare(&config[i].1, diagnostics);
            proof {
                let raw = strings_view(config@[i as int].1@);
                let read = choose|read: Seq<DialogueLine>|
                    #![trigger lines_model(read)]
                    lines_model(read) == lines_model(Seq::<DialogueLine>::empty()) + numbered_lines(
                        raw,
                    ) && stably_sorted_from(character.lines(), read);
                assert(lines_model(Seq::<DialogueLine>::empty()) + numbered_lines(raw)
                    =~= numbered_lines(raw));
                assert(prepared_from(character, config@[i as int].0@, raw));
            }
            let ghost wv = anomalies_view(warnings@);
            let ghost fv = anomalies_view(found@);
            warnings.append(&mut found);
            proof {
                assert(anomalies_view(warnings@) =~= wv + fv);
                let next = config@.take(i + 1);
                assert(next.drop_last() =~= config@.take(i as int));
                assert(next.last() == config@[i as int]);
                if diagnostics {
                    assert(anomalies_view(warnings@) =~= part_warnings(next));
                } else {
                    assert(anomalies_view(warnings@) =~= Seq::<AnomalyModel>::empty());
                }
            }
            self.play_characters.push(character);
            i = i + 1;
        }
        assert(config@.take(config.len() as int) =~= config@);
        warnings
    }

    /// Sets the title and adds the configured characters, as `process_config` does.
    pub fn prepare(&mut self, title: &String, config: &PartLines, diagnostics: bool) -> (r: Vec<
        Anomaly,
    >)
        ensures
            final(self).title() == title@,
            final(self).characters().len() == old(self).characters().len() + config@.len(),
            forall|k: int|
                0 <= k < old(self).characters().len() ==> #[trigger] final(self).characters()[k]
                    == old(self).characters()[k],
            forall|i: int|
                0 <= i < config@.len() ==> #[trigger] prepared_from(
                    final(self).characters()[old(self).characters().len() + i],
                    config@[i].0@,
                    strings_view(config@[i].1@),
                ),
            anomalies_view(r@) == if diagnostics {
                part_warnings(config@)
            } else {
                Seq::empty()
            },
    {
        self.play_title = title.clone();
        self.process_config(config, diagnostics)
    }

    /// Recites the play: sweeps the ticks from 0 through the last position, each character's
    /// lines at a tick in configuration order, and renders what was said under the title. With
    /// `diagnostics` the anomalies of each tick come back too; the printed lines never depend on
    /// it. Afterwards every track is exhausted.
    pub fn recite(&mut self, diagnostics: bool) -> (r: Recitation)
        requires
            fresh_tracks(old(self).characters()),
        ensures
            final(self).title() == old(self).title(),
            same_tracks(final(self).characters(), old(self).characters()),
            forall|k: int|
                0 <= k < final(self).characters().len() ==> #[trigger] final(self).characters()[k].cursor()
                    == final(self).characters()[k].lines().len(),
            strings_view(r.lines@) == recitation_text(
                old(self).title(),
                speech_before(old(self).characters(), tick_count(old(self).characters())),
            ),
            anomalies_view(r.warnings@) == if diagnostics {
                anomalies_before(old(self).characters(), tick_count(old(self).characters()))
            } else {
                Seq::empty()
            },
    {
        let (speech, warnings) = schedule(&mut self.play_characters, diagnostics);
        let lines = render(&self.play_title, &speech);
        Recitation { lines, warnings }
    }
}

} // verus!
