//! The configuration: a title line, then one line per character naming its part.
use vstd::prelude::*;

use crate::diagnostics::{anomalies_view, Anomaly, AnomalyModel};
use crate::player::strings_view;
use crate::text::{chars_of, is_blank, is_blank_char, string_of_range};

verus! {

/// Configured characters: (character name, name of the part's source), in order.
pub type PlayConfig = Vec<(String, String)>;

/// The first index at or after `i` that holds no white space, or `s.len()`.
pub open spec fn skip_blanks(s: Seq<char>, i: int) -> int
    decreases s.len() - i,
{
    if i < 0 || i >= s.len() || !is_blank(s[i]) {
        i
    } else {
        skip_blanks(s, i + 1)
    }
}

/// The first index at or after `i` that holds white space, or `s.len()`.
pub open spec fn word_end(s: Seq<char>, i: int) -> int
    decreases s.len() - i,
{
    if i < 0 || i >= s.len() || is_blank(s[i]) {
        i
    } else {
        word_end(s, i + 1)
    }
}

/// The white-space separated words of `s` from index `i` on.
pub open spec fn words_from(s: Seq<char>, i: int) -> Seq<Seq<char>>
    decreases s.len() - i,
{
    let j = skip_blanks(s, i);
    if i < 0 || j >= s.len() {
        Seq::empty()
    } else {
        let k = word_end(s, j);
        if k <= i || k > s.len() {
            Seq::empty()
        } else {
            seq![s.subrange(j, k)] + words_from(s, k)
        }
    }
}

/// The white-space separated words of `s`.
pub open spec fn words(s: Seq<char>) -> Seq<Seq<char>> {
    words_from(s, 0)
}

proof fn lemma_skip_blanks_bounds(s: Seq<char>, i: int)
    requires
        0 <= i <= s.len(),
    ensures
        i <= skip_blanks(s, i) <= s.len(),
    decreases s.len() - i,
{
    if i < s.len() && is_blank(s[i]) {
        lemma_skip_blanks_bounds(s, i + 1);
    }
}

proof fn lemma_word_end_bounds(s: Seq<char>, i: int)
    requires
        0 <= i < s.len(),
        !is_blank(s[i]),
    ensures
        i < word_end(s, i) <= s.len(),
    decreases s.len() - i,
{
    if i + 1 < s.len() && !is_blank(s[i + 1]) {
        lemma_word_end_bounds(s, i + 1);
    } else {
        assert(word_end(s, i + 1) == i + 1);
    }
}

/// The white-space separated words of `line`.
pub fn split_words(line: &String) -> (r: Vec<String>)
    ensures
        strings_view(r@) == words(line@),
{
    let cs = chars_of(line.as_str());
    let len = cs.len();
    let mut out: Vec<String> = Vec::new();
    let mut i: usize = 0;
    assert(strings_view(out@) + words_from(cs@, 0) =~= words(line@));
    loop
        invariant
            i <= len == cs.len(),
            cs@ == line@,
            strings_view(out@) + words_from(cs@, i as int) == words(line@),
        ensures
            strings_view(out@) == words(line@),
        decreases len - i,
    {
        let ghost i0 = i as int;
        let mut j: usize = i;
        while j < len && is_blank_char(cs[j])
            invariant
                i0 <= j <= len == cs.len(),
                skip_blanks(cs@, j as int) == skip_blanks(cs@, i0),
            decreases len - j,
        {
            j = j + 1;
        }
        if j >= len {
            assert(words_from(cs@, i0) =~= Seq::<Seq<char>>::empty());
            assert(strings_view(out@) + Seq::<Seq<char>>::empty() =~= strings_view(out@));
            break ;
        }
        let mut k: usize = j;
        while k < len && !is_blank_char(cs[k])
            invariant
                j <= k <= len == cs.len(),
                word_end(cs@, k as int) == word_end(cs@, j as int),
            decreases len - k,
        {
            k = k + 1;
        }
        proof {
            lemma_word_end_bounds(cs@, j as int);
        }
        let ghost before = strings_view(out@);
        let w = string_of_range(&cs, j, k);
        out.push(w);
        assert(strings_view(out@) =~= before.push(cs@.subrange(j as int, k as int)));
        assert(words_from(cs@, i0) == seq![cs@.subrange(j as int, k as int)] + words_from(
            cs@,
            k as int,
        ));
        assert(strings_view(out@) + words_from(cs@, k as int) =~= before + words_from(cs@, i0));
        i = k;
    }
    out
}

/// The entry a configuration line gives: its first two words, if it has two or more.
pub open spec fn config_entry(line: Seq<char>) -> Option<(Seq<char>, Seq<char>)> {
    let w = words(line);
    if w.len() >= 2 {
        Some((w[0], w[1]))
    } else {
        None
    }
}

/// The warning a configuration line gives: one unless it has exactly two words.
pub open spec fn config_warning(line: Seq<char>) -> Seq<AnomalyModel> {
    let n = words(line).len();
    if n != 2 {
        seq![AnomalyModel::BadConfigLine(line, n)]
    } else {
        Seq::empty()
    }
}

pub open spec fn config_view(c: Seq<(String, String)>) -> Seq<(Seq<char>, Seq<char>)> {
    c.map_values(|e: (String, String)| (e.0@, e.1@))
}

/// The entries of the configuration lines, in order.
pub open spec fn config_entries(lines: Seq<Seq<char>>) -> Seq<(Seq<char>, Seq<char>)>
    decreases lines.len(),
{
    if lines.len() == 0 {
        Seq::empty()
    } else {
        match config_entry(lines.last()) {
            Some(e) => config_entries(lines.drop_last()).push(e),
            None => config_entries(lines.drop_last()),
        }
    }
}

/// The warnings of the configuration lines, in order.
pub open spec fn config_warnings(lines: Seq<Seq<char>>) -> Seq<AnomalyModel>
    decreases lines.len(),
{
    if lines.len() == 0 {
        Seq::empty()
    } else {
        config_warnings(lines.drop_last()) + config_warning(lines.last())
    }
}

/// Reads one configuration line: with two or more words, the first names a character and the
/// second its part. A line with other than two words gives a warning with `diagnostics`.
pub fn add_config(config_line: &String, config: &mut PlayConfig, diagnostics: bool) -> (r: Option<
    Anomaly,
>)
    ensures
        config_view(final(config)@) == match config_entry(config_line@) {
            Some(e) => config_view(old(config)@).push(e),
            None => config_view(old(config)@),
        },
        match r {
            Some(a) => diagnostics && config_warning(config_line@) == seq![a@],
            None => !diagnostics || config_warning(config_line@) == Seq::<AnomalyModel>::empty(),
        },
{
    let tokens = split_words(config_line);
    let n = tokens.len();
    assert(strings_view(tokens@).len() == n);
    let ghost before = config_view(config@);
    if n >= 2 {
        assert(strings_view(tokens@)[0] == tokens@[0]@);
        assert(strings_view(tokens@)[1] == tokens@[1]@);
        config.push((tokens[0].clone(), tokens[1].clone()));
        assert(config_view(config@) =~= before.push((tokens@[0]@, tokens@[1]@)));
    }
    if diagnostics && n != 2 {
        Some(Anomaly::BadConfigLine(config_line.clone(), n))
    } else {
        None
    }
}

/// Why a configuration cannot be used.
#[derive(Debug, PartialEq, Eq)]
pub enum ConfigError {
    /// Fewer than two lines: a title and at least one character are needed.
    TooFewLines,
}

/// Reads the configuration's lines: the first is the title, each later one may configure a
/// character. Fails, changing nothing, on fewer than two lines.
pub fn read_config(
    config_lines: &Vec<String>,
    title: &mut String,
    config: &mut PlayConfig,
    diagnostics: bool,
) -> (r: Result<Vec<Anomaly>, ConfigError>)
    ensures
        config_lines@.len() < 2 <==> r is Err,
        r is Err ==> *final(title) == *old(title) && final(config)@ == old(config)@,
        r matches Ok(w) ==> {
            &&& final(title)@ == config_lines@[0]@
            &&& config_view(final(config)@) == config_view(old(config)@) + config_entries(
                strings_view(config_lines@).skip(1),
            )
            &&& anomalies_view(w@) == if diagnostics {
                config_warnings(strings_view(config_lines@).skip(1))
            } else {
                Seq::empty()
            }
        },
{
    if config_lines.len() < 2 {
        return Err(ConfigError::TooFewLines);
    }
    *title = config_lines[0].clone();
    let ghost all = strings_view(config_lines@);
    let ghost base = config_view(config@);
    let mut warnings: Vec<Anomaly> = Vec::new();
    let mut i: usize = 1;
    assert(all.subrange(1, 1) =~= Seq::<Seq<char>>::empty());
    assert(base + Seq::<(Seq<char>, Seq<char>)>::empty() =~= base);
    assert(anomalies_view(warnings@) =~= Seq::<AnomalyModel>::empty());
    while i < config_lines.len()
        invariant
            1 <= i <= config_lines.len(),
            all == strings_view(config_lines@),
            base == config_view(old(config)@),
            final(title)@ == config_lines@[0]@,
            config_view(config@) == base + config_entries(all.subrange(1, i as int)),
            anomalies_view(warnings@) == if diagnostics {
                config_warnings(all.subrange(1, i as int))
            } else {
                Seq::empty()
            },
        decreases config_lines.len() - i,
    {
        let ghost cv = config_view(config@);
        let ghost wv = anomalies_view(warnings@);
        let ghost nxt = all.subrange(1, i + 1);
        assert(nxt.drop_last() =~= all.subrange(1, i as int));
        assert(nxt.last() == config_lines@[i as int]@);
        match add_config(&config_lines[i], config, diagnostics) {
            Some(a) => {
                warnings.push(a);
                assert(anomalies_view(warnings@) =~= wv + seq![a@]);
            },
            None => {},
        }
        proof {
            if diagnostics {
                assert(anomalies_view(warnings@) =~= config_warnings(nxt));
            } else {
                assert(anomalies_view(warnings@) =~= Seq::<AnomalyModel>::empty());
            }
            assert(config_view(config@) =~= base + config_entries(nxt));
        }
        i = i + 1;
    }
    assert(all.subrange(1, config_lines.len() as int) =~= all.skip(1));
    Ok(warnings)
}

} // verus!
