//! The global-sort recitation: every character's lines flattened into one list, sorted by
//! position, then character name, then text.
use vstd::prelude::*;

use crate::diagnostics::{anomalies_view, Anomaly, AnomalyModel};
use crate::play::{part_warnings, recitation_text, render, speech_view, PartLines, Speech};
use crate::player::{bad_line_warnings, malformed_tokens, strings_view};
use crate::text::{chars_of, line_model, parse_line, LineModel, ParsedLine};

verus! {

/// A line of the flattened script: (position, character name, text).
pub type ScriptLine = (usize, String, String);

pub open spec fn script_view(v: Seq<ScriptLine>) -> Seq<(usize, Seq<char>, Seq<char>)> {
    v.map_values(|l: ScriptLine| (l.0, l.1@, l.2@))
}

/// Lexicographic comparison of texts by character: negative, zero or positive.
pub open spec fn text_cmp(a: Seq<char>, b: Seq<char>) -> int
    decreases a.len(),
{
    if a.len() == 0 {
        if b.len() == 0 {
            0
        } else {
            -1
        }
    } else if b.len() == 0 {
        1
    } else if a[0] < b[0] {
        -1
    } else if a[0] > b[0] {
        1
    } else {
        text_cmp(a.drop_first(), b.drop_first())
    }
}

/// Comparison of script lines by position, then name, then text.
pub open spec fn line_cmp(x: (usize, Seq<char>, Seq<char>), y: (usize, Seq<char>, Seq<char>)) -> int {
    if x.0 < y.0 {
        -1
    } else if x.0 > y.0 {
        1
    } else if text_cmp(x.1, y.1) != 0 {
        text_cmp(x.1, y.1)
    } else {
        text_cmp(x.2, y.2)
    }
}

/// Each line of `s` is no greater than the next.
pub open spec fn script_sorted(s: Seq<(usize, Seq<char>, Seq<char>)>) -> bool {
    forall|i: int| 0 <= i < s.len() - 1 ==> line_cmp(#[trigger] s[i], s[i + 1]) <= 0
}

/// The script lines that the raw lines of one part give, in order.
pub open spec fn part_script(who: Seq<char>, raw: Seq<Seq<char>>) -> Seq<
    (usize, Seq<char>, Seq<char>),
>
    decreases raw.len(),
{
    if raw.len() == 0 {
        Seq::empty()
    } else {
        match line_model(raw.last()) {
            LineModel::Numbered(n, t) => part_script(who, raw.drop_last()).push((n, who, t)),
            _ => part_script(who, raw.drop_last()),
        }
    }
}

/// The script lines of all parts, part by part.
pub open spec fn config_script(parts: Seq<(String, Vec<String>)>) -> Seq<
    (usize, Seq<char>, Seq<char>),
>
    decreases parts.len(),
{
    if parts.len() == 0 {
        Seq::empty()
    } else {
        config_script(parts.drop_last()) + part_script(
            parts.last().0@,
            strings_view(parts.last().1@),
        )
    }
}

proof fn lemma_text_cmp_antisymmetric(a: Seq<char>, b: Seq<char>)
    ensures
        text_cmp(a, b) == -text_cmp(b, a),
    decreases a.len(),
{
    if a.len() > 0 && b.len() > 0 && a[0] == b[0] {
        lemma_text_cmp_antisymmetric(a.drop_first(), b.drop_first());
    }
}

proof fn lemma_line_cmp_antisymmetric(
    x: (usize, Seq<char>, Seq<char>),
    y: (usize, Seq<char>, Seq<char>),
)
    ensures
        line_cmp(x, y) == -line_cmp(y, x),
{
    lemma_text_cmp_antisymmetric(x.1, y.1);
    lemma_text_cmp_antisymmetric(x.2, y.2);
}

/// The lexicographic comparison of two strings by character.
pub fn compare_text(a: &String, b: &String) -> (r: i8)
    ensures
        r as int == text_cmp(a@, b@),
{
    let x = chars_of(a.as_str());
    let y = chars_of(b.as_str());
    let mut i: usize = 0;
    assert(x@.skip(0) =~= x@ && y@.skip(0) =~= y@);
    while i < x.len() && i < y.len() && x[i] == y[i]
        invariant
            i <= x.len(),
            i <= y.len(),
            x@ == a@,
            y@ == b@,
            text_cmp(a@, b@) == text_cmp(x@.skip(i as int), y@.skip(i as int)),
        decreases x.len() - i,
    {
        assert(x@.skip(i as int).drop_first() =~= x@.skip(i + 1));
        assert(y@.skip(i as int).drop_first() =~= y@.skip(i + 1));
        i = i + 1;
    }
    let ghost xs = x@.skip(i as int);
    let ghost ys = y@.skip(i as int);
    if i == x.len() {
        assert(xs.len() == 0);
        if i == y.len() {
            0
        } else {
            -1
        }
    } else if i == y.len() {
        1
    } else if x[i] < y[i] {
        assert(xs[0] == x@[i as int] && ys[0] == y@[i as int]);
        -1
    } else {
        assert(xs[0] == x@[i as int] && ys[0] == y@[i as int]);
        1
    }
}

/// Compares two script lines by position, then name, then text.
pub fn compare_lines(x: &ScriptLine, y: &ScriptLine) -> (r: i8)
    ensures
        r as int == line_cmp((x.0, x.1@, x.2@), (y.0, y.1@, y.2@)),
{
    if x.0 < y.0 {
        -1
    } else if x.0 > y.0 {
        1
    } else {
        let c = compare_text(&x.1, &y.1);
        if c != 0 {
            c
        } else {
            compare_text(&x.2, &y.2)
        }
    }
}

/// Sorts the script by position, then character name, then text.
pub fn sort_script(play: &mut Vec<ScriptLine>)
    ensures
        script_sorted(script_view(final(play)@)),
        script_view(final(play)@).to_multiset() == script_view(old(play)@).to_multiset(),
{
    let mut out: Vec<ScriptLine> = Vec::new();
    let mut k: usize = 0;
    let ghost src = script_view(play@);
    assert(script_view(out@).to_multiset() =~= script_view(play@.take(0)).to_multiset()) by {
        assert(script_view(out@) =~= script_view(play@.take(0)));
    }
    while k < play.len()
        invariant
            k <= play.len(),
            src == script_view(play@),
            play@ == old(play)@,
            script_sorted(script_view(out@)),
            script_view(out@).to_multiset() == script_view(play@.take(k as int)).to_multiset(),
        decreases play.len() - k,
    {
        let x: ScriptLine = (play[k].0, play[k].1.clone(), play[k].2.clone());
        let ghost xv = (x.0, x.1@, x.2@);
        let mut j: usize = out.len();
        while j > 0 && compare_lines(&out[j - 1], &x) > 0
            invariant
                j <= out.len(),
                xv == (x.0, x.1@, x.2@),
                j < out.len() ==> line_cmp(script_view(out@)[j as int], xv) > 0,
            decreases j,
        {
            j = j - 1;
        }
        let ghost before = script_view(out@);
        out.insert(j, x);
        proof {
            assert(script_view(out@) =~= before.insert(j as int, xv));
            if j < before.len() {
                lemma_line_cmp_antisymmetric(before[j as int], xv);
            }
            if j > 0 {
                lemma_line_cmp_antisymmetric(before[j - 1], xv);
            }
            let s = script_view(out@);
            assert forall|i: int| 0 <= i < s.len() - 1 implies line_cmp(#[trigger] s[i], s[i + 1]) <= 0 by {
                if i < j - 1 {
                    assert(s[i] == before[i] && s[i + 1] == before[i + 1]);
                } else if i == j - 1 {
                    assert(s[i] == before[i] && s[i + 1] == xv);
                } else if i == j {
                    assert(s[i] == xv && s[i + 1] == before[i]);
                } else {
                    assert(s[i] == before[i - 1] && s[i + 1] == before[i]);
                }
            }
            vstd::seq_lib::to_multiset_insert(before, j as int, xv);
            let next = play@.take(k + 1);
            assert(script_view(next) =~= script_view(play@.take(k as int)).push(xv));
            vstd::seq_lib::to_multiset_build(script_view(play@.take(k as int)), xv);
        }
        k = k + 1;
    }
    assert(play@.take(play.len() as int) =~= play@);
    *play = out;
}

/// Reads one raw line of the part of `part_name` into the script; the leading token of a
/// malformed line comes back.
pub fn add_script_line(play: &mut Vec<ScriptLine>, line: &String, part_name: &String) -> (r: Option<
    String,
>)
    ensures
        script_view(final(play)@) == script_view(old(play)@) + part_script(part_name@, seq![line@]),
        match line_model(line@) {
            LineModel::Malformed(tok) => r matches Some(s) && s@ == tok,
            _ => r is None,
        },
{
    let ghost before = script_view(play@);
    assert(seq![line@].drop_last() =~= Seq::<Seq<char>>::empty());
    assert(seq![line@].last() == line@);
    assert(part_script(part_name@, Seq::<Seq<char>>::empty()) == Seq::<
        (usize, Seq<char>, Seq<char>),
    >::empty());
    assert(before + Seq::<(usize, Seq<char>, Seq<char>)>::empty() =~= before);
    match parse_line(line.as_str()) {
        ParsedLine::Numbered(n, t) => {
            play.push((n, part_name.clone(), t));
            assert(script_view(play@) =~= before + part_script(part_name@, seq![line@]));
            None
        },
        ParsedLine::Malformed(tok) => {
            assert(script_view(play@) =~= before + part_script(part_name@, seq![line@]));
            Some(tok)
        },
        ParsedLine::Ignored => {
            assert(script_view(play@) =~= before + part_script(part_name@, seq![line@]));
            None
        },
    }
}


proof fn lemma_part_script_push(who: Seq<char>, raw: Seq<Seq<char>>, l: Seq<char>)
    ensures
        part_script(who, raw.push(l)) == part_script(who, raw) + part_script(who, seq![l]),
{
    assert(raw.push(l).drop_last() =~= raw);
    assert(seq![l].drop_last() =~= Seq::<Seq<char>>::empty());
    assert(seq![l].last() == l);
    let e = Seq::<(usize, Seq<char>, Seq<char>)>::empty();
    assert(part_script(who, Seq::<Seq<char>>::empty()) == e);
    assert(part_script(who, raw) + e =~= part_script(who, raw));
    match line_model(l) {
        LineModel::Numbered(n, t) => {
            assert(part_script(who, seq![l]) == e.push((n, who, t)));
            assert(part_script(who, raw).push((n, who, t)) =~= part_script(who, raw) + e.push(
                (n, who, t),
            ));
        },
        _ => {},
    }
}

/// Appends to the script the numbered lines of every configured part, part by part, each
/// tagged with its character's name. With `diagnostics` the malformed lines are reported.
pub fn process_config(play: &mut Vec<ScriptLine>, config: &PartLines, diagnostics: bool) -> (r: Vec<
    Anomaly,
>)
    ensures
        script_view(final(play)@) == script_view(old(play)@) + config_script(config@),
        anomalies_view(r@) == if diagnostics {
            part_warnings(config@)
        } else {
            Seq::empty()
        },
{
    let ghost base = script_view(play@);
    let mut warnings: Vec<Anomaly> = Vec::new();
    let mut i: usize = 0;
    assert(config@.take(0) =~= Seq::<(String, Vec<String>)>::empty());
    assert(base + Seq::<(usize, Seq<char>, Seq<char>)>::empty() =~= base);
    assert(anomalies_view(warnings@) =~= Seq::<AnomalyModel>::empty());
    while i < config.len()
        invariant
            i <= config.len(),
            base == script_view(old(play)@),
            script_view(play@) == base + config_script(config@.take(i as int)),
            anomalies_view(warnings@) == if diagnostics {
                part_warnings(config@.take(i as int))
            } else {
                Seq::empty()
            },
        decreases config.len() - i,
    {
        let name = &config[i].0;
        let lines = &config[i].1;
        let ghost who = name@;
        let ghost raw = strings_view(lines@);
        let ghost mid = script_view(play@);
        let ghost w_mid = anomalies_view(warnings@);
        let mut j: usize = 0;
        assert(raw.take(0) =~= Seq::<Seq<char>>::empty());
        assert(mid + Seq::<(usize, Seq<char>, Seq<char>)>::empty() =~= mid);
        assert(w_mid + bad_line_warnings(Seq::<Seq<char>>::empty()) =~= w_mid);
        while j < lines.len()
            invariant
                j <= lines.len(),
                who == name@,
                raw == strings_view(lines@),
                script_view(play@) == mid + part_script(who, raw.take(j as int)),
                anomalies_view(warnings@) == w_mid + if diagnostics {
                    bad_line_warnings(malformed_tokens(raw.take(j as int)))
                } else {
                    Seq::empty()
                },
            decreases lines.len() - j,
        {
            let ghost before = script_view(play@);
            let ghost w_before = anomalies_view(warnings@);
            assert(raw.take(j + 1) =~= raw.take(j as int).push(lines@[j as int]@));
            proof {
                lemma_part_script_push(who, raw.take(j as int), lines@[j as int]@);
            }
            let bad = add_script_line(play, &lines[j], name);
            match bad {
                Some(tok) => {
                    if diagnostics {
                        warnings.push(Anomaly::BadLineNumber(tok));
                        assert(anomalies_view(warnings@) =~= w_before.push(
                            AnomalyModel::BadLineNumber(tok@),
                        ));
                    }
                },
                None => {},
            }
            proof {
                let nxt = raw.take(j + 1);
                assert(nxt.drop_last() =~= raw.take(j as int));
                assert(nxt.last() == lines@[j as int]@);
                if diagnostics {
                    assert(anomalies_view(warnings@) =~= w_mid + bad_line_warnings(
                        malformed_tokens(nxt),
                    ));
                } else {
                    assert(anomalies_view(warnings@) =~= w_mid + Seq::<AnomalyModel>::empty());
                }
                assert(script_view(play@) =~= mid + part_script(who, nxt));
            }
            j = j + 1;
        }
        proof {
            assert(raw.take(lines.len() as int) =~= raw);
            let nxt = config@.take(i + 1);
            assert(nxt.drop_last() =~= config@.take(i as int));
            assert(nxt.last() == config@[i as int]);
            assert(script_view(play@) =~= base + config_script(nxt));
            if diagnostics {
                assert(anomalies_view(warnings@) =~= part_warnings(nxt));
            } else {
                assert(anomalies_view(warnings@) =~= Seq::<AnomalyModel>::empty());
            }
        }
        i = i + 1;
    }
    assert(config@.take(config.len() as int) =~= config@);
    warnings
}

/// Sets the script's title and appends the lines of every configured part, as
/// `process_config` does.
pub fn script_gen(
    config_title: &String,
    config: &PartLines,
    title: &mut String,
    play: &mut Vec<ScriptLine>,
    diagnostics: bool,
) -> (r: Vec<Anomaly>)
    ensures
        final(title)@ == config_title@,
        script_view(final(play)@) == script_view(old(play)@) + config_script(config@),
        anomalies_view(r@) == if diagnostics {
            part_warnings(config@)
        } else {
            Seq::empty()
        },
{
    *title = config_title.clone();
    process_config(play, config, diagnostics)
}

/// Who says what along a script, in order.
pub open spec fn script_speech(s: Seq<(usize, Seq<char>, Seq<char>)>) -> Seq<
    (Seq<char>, Seq<char>),
> {
    s.map_values(|l: (usize, Seq<char>, Seq<char>)| (l.1, l.2))
}

/// The printed lines of the script in its present order: the title, then each line, with a
/// blank line and the speaker's name and a period before it wherever the speaker changes.
pub fn recite_script(title: &String, play: &Vec<ScriptLine>) -> (r: Vec<String>)
    ensures
        strings_view(r@) == recitation_text(title@, script_speech(script_view(play@))),
{
    let mut speech: Vec<Speech> = Vec::new();
    let mut i: usize = 0;
    while i < play.len()
        invariant
            i <= play.len(),
            speech_view(speech@) == script_speech(script_view(play@.take(i as int))),
        decreases play.len() - i,
    {
        let ghost before = speech_view(speech@);
        speech.push((play[i].1.clone(), play[i].2.clone()));
        assert(play@.take(i + 1) =~= play@.take(i as int).push(play@[i as int]));
        assert(script_speech(script_view(play@.take(i + 1))) =~= before.push(
            (play@[i as int].1@, play@[i as int].2@),
        ));
        assert(speech_view(speech@) =~= before.push((play@[i as int].1@, play@[i as int].2@)));
        i = i + 1;
    }
    assert(play@.take(play.len() as int) =~= play@);
    render(title, &speech)
}

} // verus!
