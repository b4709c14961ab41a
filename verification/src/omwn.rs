//! The foreign-translation tables: three tab-separated columns of legacy id,
//! relation label and value; only lemma rows are kept, each mapped through
//! the legacy crosswalk index onto a current synset.
use crate::keys::WNKey;
use crate::model::DeepClone;
use crate::text::{is_suffix, lex_le, lex_lt, lemma_lex_trichotomy, split_on, str_ends_with,
    str_eq, str_lex_le, str_split, str_starts_with};
use crate::wordnet::{StoreV, WordNetBuilder, WordNetLoadError, assoc_s, assoc_k, old_index_of,
    put_k};
use vstd::prelude::*;

verus! {

/// Appends one value to the list a packed key holds.
pub open spec fn add_val_k(
    m: Seq<(WNKey, Seq<Seq<char>>)>,
    k: WNKey,
    x: Seq<char>,
) -> Seq<(WNKey, Seq<Seq<char>>)> {
    let cur = match assoc_k(m, k) {
        Some(l) => l,
        None => Seq::empty(),
    };
    put_k(m, k, cur.push(x))
}

/// The raw accumulation of a table against a store: a lemma row whose legacy
/// id the crosswalk index knows adds its value under the owning synset; any
/// other row — a comment, a short line, a different relation, or an id the
/// index does not know — is skipped, and never stops the remaining rows.
pub open spec fn omwn_fold(
    st: StoreV,
    lines: Seq<Seq<char>>,
    acc: Seq<(WNKey, Seq<Seq<char>>)>,
) -> Seq<(WNKey, Seq<Seq<char>>)>
    decreases lines.len(),
{
    if lines.len() == 0 {
        acc
    } else {
        let line = lines[0];
        let parts = split_on(line, '\t');
        let acc2 = if !crate::text::is_prefix("#"@, line) && line.len() > 0 && parts.len() >= 3
            && is_suffix("lemma"@, parts[1]) {
            match assoc_s(old_index_of(st, "pwn30"@), parts[0]) {
                Some(k) => add_val_k(acc, k, parts[2]),
                None => acc,
            }
        } else {
            acc
        };
        omwn_fold(st, lines.drop_first(), acc2)
    }
}

/// Stable insertion into a lexicographically ordered list.
pub open spec fn insert_lex(s: Seq<Seq<char>>, x: Seq<char>) -> Seq<Seq<char>>
    decreases s.len(),
{
    if s.len() == 0 {
        seq![x]
    } else if lex_le(s.last(), x) {
        s.push(x)
    } else {
        insert_lex(s.drop_last(), x).push(s.last())
    }
}

/// Lexicographic insertion sort.
pub open spec fn sort_lex(s: Seq<Seq<char>>) -> Seq<Seq<char>>
    decreases s.len(),
{
    if s.len() == 0 {
        Seq::empty()
    } else {
        insert_lex(sort_lex(s.drop_last()), s.last())
    }
}

/// Adjacent duplicates removed, first occurrences kept.
pub open spec fn dedup_adjacent(s: Seq<Seq<char>>) -> Seq<Seq<char>>
    decreases s.len(),
{
    if s.len() <= 1 {
        s
    } else if s.last() == s[s.len() - 2] {
        dedup_adjacent(s.drop_last())
    } else {
        dedup_adjacent(s.drop_last()).push(s.last())
    }
}

/// What one translation table yields against a store: per reachable synset,
/// the values of its lemma rows, sorted and deduplicated.
pub open spec fn omwn_spec(st: StoreV, contents: Seq<char>) -> Seq<(WNKey, Seq<Seq<char>>)> {
    let raw = omwn_fold(st, split_on(contents, '\n'), Seq::empty());
    Seq::new(raw.len(), |i: int| (raw[i].0, dedup_adjacent(sort_lex(raw[i].1))))
}

/// Where the stable lexicographic insertion lands.
proof fn lemma_insert_lex_at(s: Seq<Seq<char>>, x: Seq<char>, pos: int)
    requires
        0 <= pos <= s.len(),
        forall|w: int| pos <= w < s.len() ==> !lex_le(#[trigger] s[w], x),
        pos > 0 ==> lex_le(s[pos - 1], x),
    ensures
        insert_lex(s, x) == s.take(pos) + seq![x] + s.skip(pos),
    decreases s.len(),
{
    if s.len() == 0 {
        assert(insert_lex(s, x) =~= s.take(pos) + seq![x] + s.skip(pos));
    } else if lex_le(s.last(), x) {
        assert(pos == s.len());
        assert(s.take(pos) =~= s);
        assert(s.skip(pos).len() == 0);
        assert(s.push(x) =~= s.take(pos) + seq![x] + s.skip(pos));
    } else {
        assert(pos < s.len());
        let dl = s.drop_last();
        assert(forall|w: int| pos <= w < dl.len() ==> #[trigger] dl[w] == s[w]);
        lemma_insert_lex_at(dl, x, pos);
        assert(dl.take(pos) =~= s.take(pos));
        assert((dl.take(pos) + seq![x] + dl.skip(pos)).push(s.last()) =~= s.take(pos) + seq![x]
            + s.skip(pos));
    }
}

/// Sorts a list of strings and removes duplicates.
fn sort_dedup(values: &Vec<String>) -> (r: Vec<String>)
    ensures
        r.deep_view() == dedup_adjacent(sort_lex(values.deep_view())),
{
    let ghost vals_dv = values.deep_view();
    let mut sorted: Vec<String> = Vec::new();
    let mut i: usize = 0;
    proof {
        assert(vals_dv.take(0) =~= Seq::<Seq<char>>::empty());
        assert(sorted.deep_view() =~= sort_lex(vals_dv.take(0)));
    }
    while i < values.len()
        invariant
            i <= values.len(),
            vals_dv == values.deep_view(),
            values.len() == vals_dv.len(),
            sorted.deep_view() == sort_lex(vals_dv.take(i as int)),
        decreases values.len() - i,
    {
        proof {
            assert(vals_dv[i as int] == values@[i as int]@);
            assert(vals_dv.take(i + 1).drop_last() =~= vals_dv.take(i as int));
            assert(vals_dv.take(i + 1).last() == vals_dv[i as int]);
        }
        let x = values[i].deep_clone();
        let mut pos: usize = sorted.len();
        while pos > 0 && !str_lex_le(sorted[pos - 1].as_str(), x.as_str())
            invariant
                pos <= sorted.len(),
                x@ == vals_dv[i as int],
                i < vals_dv.len(),
                forall|w: int|
                    pos <= w < sorted.deep_view().len() ==> !lex_le(
                        #[trigger] sorted.deep_view()[w],
                        x@,
                    ),
            decreases pos,
        {
            proof {
                assert(sorted.deep_view()[pos - 1] == sorted@[pos - 1]@);
            }
            pos -= 1;
        }
        proof {
            if pos > 0 {
                assert(sorted.deep_view()[pos - 1] == sorted@[pos - 1]@);
            }
        }
        let ghost pre = sorted.deep_view();
        sorted.insert(pos, x);
        proof {
            lemma_insert_lex_at(pre, vals_dv[i as int], pos as int);
            assert(sorted.deep_view() =~= pre.take(pos as int) + seq![vals_dv[i as int]]
                + pre.skip(pos as int));
        }
        i += 1;
    }
    proof {
        assert(vals_dv.take(vals_dv.len() as int) =~= vals_dv);
    }
    let ghost sorted_dv = sorted.deep_view();
    let mut out: Vec<String> = Vec::new();
    let mut j: usize = 0;
    proof {
        assert(sorted_dv.take(0) =~= Seq::<Seq<char>>::empty());
        assert(out.deep_view() =~= dedup_adjacent(sorted_dv.take(0)));
    }
    while j < sorted.len()
        invariant
            j <= sorted.len(),
            sorted_dv == sorted.deep_view(),
            sorted.len() == sorted_dv.len(),
            out.deep_view() == dedup_adjacent(sorted_dv.take(j as int)),
            out.deep_view().len() > 0 ==> j > 0 && out.deep_view().last() == sorted_dv[j - 1],
            j > 0 ==> out.deep_view().len() > 0,
        decreases sorted.len() - j,
    {
        proof {
            assert(sorted_dv[j as int] == sorted@[j as int]@);
            assert(sorted_dv.take(j + 1).drop_last() =~= sorted_dv.take(j as int));
            assert(sorted_dv.take(j + 1).last() == sorted_dv[j as int]);
            if j > 0 {
                assert(sorted_dv.take(j + 1)[j - 1] == sorted_dv[j - 1]);
            }
        }
        let ghost pre = out.deep_view();
        if out.len() == 0 {
            out.push(sorted[j].deep_clone());
            proof {
                assert(out.deep_view() =~= pre.push(sorted_dv[j as int]));
            }
        } else {
            let keep = !str_eq(out[out.len() - 1].as_str(), sorted[j].as_str());
            proof {
                assert(out.deep_view().last() == out@[out.len() - 1]@);
            }
            if keep {
                out.push(sorted[j].deep_clone());
                proof {
                    assert(out.deep_view() =~= pre.push(sorted_dv[j as int]));
                }
            }
        }
        j += 1;
    }
    proof {
        assert(sorted_dv.take(sorted_dv.len() as int) =~= sorted_dv);
    }
    out
}

/// Reads one foreign-translation table against the store: lemma rows whose
/// legacy id the crosswalk index knows contribute their value to the owning
/// synset's list; a row whose legacy id is absent from the index is skipped
/// without aborting the remaining rows, and the per-synset lists come out
/// sorted and deduplicated.
pub fn load_omwn(contents: &str, wordnet: &WordNetBuilder) -> (r: Result<
    Vec<(WNKey, Vec<String>)>,
    WordNetLoadError,
>)
    ensures
        r matches Ok(v) && v.deep_view() == omwn_spec(wordnet@, contents@),
{
    proof {
        reveal_strlit("#");
        reveal_strlit("lemma");
        reveal_strlit("pwn30");
    }
    let ghost st = wordnet@;
    let lines = str_split(contents, '\n');
    let ghost lines_dv = lines.deep_view();
    let mut raw: Vec<(WNKey, Vec<String>)> = Vec::new();
    let mut i: usize = 0;
    proof {
        assert(lines_dv.skip(0) =~= lines_dv);
        assert(raw.deep_view() =~= Seq::<(WNKey, Seq<Seq<char>>)>::empty());
    }
    while i < lines.len()
        invariant
            i <= lines.len(),
            lines_dv == lines.deep_view(),
            lines.len() == lines_dv.len(),
            st == wordnet@,
            omwn_fold(st, lines_dv, Seq::empty()) == omwn_fold(
                st,
                lines_dv.skip(i as int),
                raw.deep_view(),
            ),
        decreases lines.len() - i,
    {
        proof {
            assert(lines_dv.skip(i as int)[0] == lines_dv[i as int]);
            assert(lines_dv[i as int] == lines@[i as int]@);
            assert(lines_dv.skip(i as int).drop_first() =~= lines_dv.skip(i + 1));
        }
        let line = &lines[i];
        let parts = str_split(line.as_str(), '\t');
        if !str_starts_with(line.as_str(), "#") && line.unicode_len() > 0 && parts.len() >= 3
            && str_ends_with(parts[1].as_str(), "lemma") {
            proof {
                assert(parts.deep_view()[0] == parts@[0]@);
                assert(parts.deep_view()[2] == parts@[2]@);
            }
            match wordnet.get_id_by_pwn30(parts[0].as_str()) {
                Ok(Some(k)) => {
                    let ghost pre = raw.deep_view();
                    let cur: Vec<String> = match crate::wordnet::map_find_k(&raw, &k) {
                        Some(w) => {
                            proof {
                                assert(raw.deep_view()[w as int].1 == raw@[
                                    w as int].1.deep_view());
                            }
                            raw[w].1.deep_clone()
                        },
                        None => Vec::new(),
                    };
                    proof {
                        assert(cur.deep_view() =~= (match assoc_k(pre, k) {
                            Some(l) => l,
                            None => Seq::<Seq<char>>::empty(),
                        }));
                    }
                    let ghost cv = cur.deep_view();
                    let mut cur2 = cur;
                    cur2.push(parts[2].deep_clone());
                    proof {
                        assert(cur2.deep_view() =~= cv.push(parts.deep_view()[2]));
                    }
                    crate::wordnet::map_put_k(&mut raw, k, cur2);
                },
                _ => {
                },
            }
        }
        i += 1;
    }
    proof {
        assert(lines_dv.skip(lines_dv.len() as int).len() == 0);
    }
    let ghost raw_dv = raw.deep_view();
    let mut out: Vec<(WNKey, Vec<String>)> = Vec::new();
    let mut j: usize = 0;
    while j < raw.len()
        invariant
            j <= raw.len(),
            raw_dv == raw.deep_view(),
            raw.len() == raw_dv.len(),
            out.deep_view().len() == j,
            forall|w: int|
                0 <= w < j ==> out.deep_view()[w] == (
                raw_dv[w].0,
                dedup_adjacent(sort_lex(raw_dv[w].1)),
                ),
        decreases raw.len() - j,
    {
        proof {
            assert(raw_dv[j as int] == (raw@[j as int].0, raw@[j as int].1.deep_view()));
        }
        let ghost pre = out.deep_view();
        let cleaned = sort_dedup(&raw[j].1);
        out.push((raw[j].0, cleaned));
        proof {
            assert(out.deep_view() =~= pre.push(
                (raw_dv[j as int].0, dedup_adjacent(sort_lex(raw_dv[j as int].1))),
            ));
        }
        j += 1;
    }
    proof {
        assert(out.deep_view() =~= omwn_spec(st, contents@));
    }
    Ok(out)
}

} // verus!
