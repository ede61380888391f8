//! Properties of recitation that relate several calls or hold over all inputs.
use vstd::prelude::*;

use crate::play::{
    anomalies_before, duplicates_at, last_position, recitation_text, same_tracks, speakers_at,
    speech_before, tick_anomalies, tick_count, tick_speech,
};
use crate::player::Player;

verus! {

/// Within a tick, everything the first `k` characters say comes before everything the others
/// say: simultaneous lines keep configuration order.
pub proof fn lemma_tick_in_configuration_order(ps: Seq<Player>, k: int, t: usize)
    requires
        0 <= k <= ps.len(),
        forall|j: int| 0 <= j < ps.len() ==> #[trigger] ps[j].wf(),
    ensures
        tick_speech(ps, t) == tick_speech(ps.take(k), t) + tick_speech(ps.skip(k), t),
    decreases ps.len(),
{
    if k == ps.len() {
        assert(ps.take(k) =~= ps);
        assert(ps.skip(k) =~= Seq::<Player>::empty());
        assert(tick_speech(ps, t) + tick_speech(Seq::<Player>::empty(), t) =~= tick_speech(ps, t));
    } else {
        let d = ps.drop_last();
        assert forall|j: int| 0 <= j < d.len() implies #[trigger] d[j].wf() by {
            assert(d[j] == ps[j]);
        }
        lemma_tick_in_configuration_order(d, k, t);
        assert(d.take(k) =~= ps.take(k));
        assert(ps.skip(k).drop_last() =~= d.skip(k));
        assert(ps.skip(k).last() == ps.last());
        assert(tick_speech(ps, t) =~= tick_speech(ps.take(k), t) + tick_speech(ps.skip(k), t));
    }
}

proof fn lemma_same_tracks_drop_last(a: Seq<Player>, b: Seq<Player>)
    requires
        same_tracks(a, b),
        a.len() > 0,
    ensures
        same_tracks(a.drop_last(), b.drop_last()),
        a.last().name() == b.last().name(),
        a.last().lines() == b.last().lines(),
{
    assert(a.last() == a[a.len() - 1]);
    assert(b.last() == b[b.len() - 1]);
    assert forall|k: int| 0 <= k < a.drop_last().len() implies #[trigger] a.drop_last()[k].name()
        == b.drop_last()[k].name() && a.drop_last()[k].lines() == b.drop_last()[k].lines()
        && a.drop_last()[k].wf() by {
        assert(a.drop_last()[k] == a[k] && b.drop_last()[k] == b[k]);
    }
}

/// What a tick says and warns, and the last position, depend on the tracks' names and lines
/// alone.
pub(crate) proof fn lemma_same_tracks_tick_parts(a: Seq<Player>, b: Seq<Player>, t: usize)
    requires
        same_tracks(a, b),
    ensures
        tick_speech(a, t) == tick_speech(b, t),
        speakers_at(a, t) == speakers_at(b, t),
        duplicates_at(a, t) == duplicates_at(b, t),
        last_position(a) == last_position(b),
    decreases a.len(),
{
    if a.len() > 0 {
        lemma_same_tracks_drop_last(a, b);
        lemma_same_tracks_tick_parts(a.drop_last(), b.drop_last(), t);
    }
}

proof fn lemma_same_tracks_before(a: Seq<Player>, b: Seq<Player>, n: nat)
    requires
        same_tracks(a, b),
    ensures
        speech_before(a, n) == speech_before(b, n),
        anomalies_before(a, n) == anomalies_before(b, n),
    decreases n,
{
    if n > 0 {
        lemma_same_tracks_before(a, b, (n - 1) as nat);
        lemma_same_tracks_tick_parts(a, b, (n - 1) as usize);
        assert(tick_anomalies(a, (n - 1) as usize) == tick_anomalies(b, (n - 1) as usize));
    }
}

/// Two plays with the same title and the same characters, holding the same lines, recite the
/// same text and report the same anomalies: recitation is deterministic.
pub proof fn lemma_recitation_deterministic(
    title_a: Seq<char>,
    a: Seq<Player>,
    title_b: Seq<char>,
    b: Seq<Player>,
)
    requires
        title_a == title_b,
        same_tracks(a, b),
    ensures
        tick_count(a) == tick_count(b),
        recitation_text(title_a, speech_before(a, tick_count(a))) == recitation_text(
            title_b,
            speech_before(b, tick_count(b)),
        ),
        anomalies_before(a, tick_count(a)) == anomalies_before(b, tick_count(b)),
{
    lemma_same_tracks_tick_parts(a, b, 0);
    lemma_same_tracks_before(a, b, tick_count(a));
}

} // verus!
