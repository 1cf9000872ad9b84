//! Labeling and merging when several documents are chunked together.
//!
//! Each document's chunks are prefixed with the document's 1-based number
//! (`File 3: ` before each chunk of the third document) and the labeled
//! chunks of all documents are strung together in document order. To keep
//! the request count down, a labeled chunk may be coalesced into the chunk
//! before it — but only across a document seam: the two chunks must come
//! from different documents and their combined length must stay under the
//! maximum. Two adjacent chunks of the same document are never joined, so
//! the per-document chunk boundaries the chunker established survive. A
//! single document passes through unchanged, with no label.

use vstd::prelude::*;
use vstd::string::StrSliceExecFns;
use vstd::string::StringExecFns;

use crate::chunker::views;

verus! {

/// The views of a sequence of owned per-document chunk lists.
pub open spec fn deep_views(v: Seq<Vec<String>>) -> Seq<Seq<Seq<char>>> {
    v.map_values(|f: Vec<String>| views(f@))
}

/// The decimal digit character of `d`.
pub open spec fn digit_char(d: int) -> char {
    if d == 0 {
        '0'
    } else if d == 1 {
        '1'
    } else if d == 2 {
        '2'
    } else if d == 3 {
        '3'
    } else if d == 4 {
        '4'
    } else if d == 5 {
        '5'
    } else if d == 6 {
        '6'
    } else if d == 7 {
        '7'
    } else if d == 8 {
        '8'
    } else {
        '9'
    }
}

/// The decimal numeral of `n`, most significant digit first.
pub open spec fn decimal(n: int) -> Seq<char>
    decreases n,
    when n >= 0
{
    if n < 10 {
        seq![digit_char(n)]
    } else {
        decimal(n / 10) + seq![digit_char(n % 10)]
    }
}

/// The label put before each chunk of document `n` (1-based).
pub open spec fn label_seq(n: int) -> Seq<char> {
    "File "@ + decimal(n) + ": "@
}

/// A document's chunks, each tagged with the document's number and prefixed
/// with its label.
pub open spec fn label_all(file: Seq<Seq<char>>, n: int) -> Seq<(int, Seq<char>)> {
    file.map_values(|c: Seq<char>| (n, label_seq(n) + c))
}

/// The labeled chunks of documents `files[i..]`, in document order, each
/// carrying its document's number.
pub open spec fn labeled_from(files: Seq<Seq<Seq<char>>>, i: int) -> Seq<(int, Seq<char>)>
    decreases files.len() - i,
{
    if i < 0 || i >= files.len() {
        Seq::empty()
    } else {
        label_all(files[i], i + 1) + labeled_from(files, i + 1)
    }
}

/// The texts of a sequence of tagged labeled chunks.
pub open spec fn entry_texts(cs: Seq<(int, Seq<char>)>) -> Seq<Seq<char>> {
    cs.map_values(|p: (int, Seq<char>)| p.1)
}

/// One merge step. `last_src` is the document of the last chunk folded in.
/// The incoming labeled chunk is coalesced into the chunk before it only
/// across a document seam: when it comes from a different document than the
/// chunk folded in before it and the pair stays under `max`. Otherwise it
/// starts a new chunk, so two chunks of one document are never joined.
pub open spec fn merge_step(
    acc: Seq<Seq<char>>,
    last_src: int,
    entry: (int, Seq<char>),
    max: int,
) -> Seq<Seq<char>> {
    if acc.len() > 0 && last_src != entry.0 && acc.last().len() + entry.1.len() < max {
        acc.update(acc.len() - 1, acc.last() + entry.1)
    } else {
        acc.push(entry.1)
    }
}

/// The tagged labeled chunks `cs[i..]` folded, in order, onto `acc`, where
/// `last_src` is the document of the last chunk already folded in (0 when
/// none is).
pub open spec fn merge_from(
    cs: Seq<(int, Seq<char>)>,
    i: int,
    acc: Seq<Seq<char>>,
    last_src: int,
    max: int,
) -> Seq<Seq<char>>
    decreases cs.len() - i,
{
    if i < 0 || i >= cs.len() {
        acc
    } else {
        merge_from(cs, i + 1, merge_step(acc, last_src, cs[i], max), cs[i].0, max)
    }
}

/// The chunks of several documents combined into one request sequence: one
/// document passes through unchanged; otherwise every chunk is labeled with
/// its document's number, and a labeled chunk is coalesced into its
/// predecessor only when the two come from different documents and their
/// combined length stays under `max` — never across a per-document chunk
/// boundary.
pub open spec fn merge_spec(files: Seq<Seq<Seq<char>>>, max: int) -> Seq<Seq<char>> {
    if files.len() == 1 {
        files[0]
    } else {
        merge_from(labeled_from(files, 0), 0, Seq::empty(), 0, max)
    }
}

/// The tagged labeled chunks that a source-number list and a text list,
/// side by side, stand for.
pub open spec fn tagged(srcs: Seq<usize>, texts: Seq<String>) -> Seq<(int, Seq<char>)> {
    Seq::new(texts.len(), |k: int| (srcs[k] as int, texts[k]@))
}

proof fn lemma_merge_step_flatten(
    acc: Seq<Seq<char>>,
    last_src: int,
    entry: (int, Seq<char>),
    max: int,
)
    ensures
        merge_step(acc, last_src, entry, max).flatten() == acc.flatten() + entry.1,
{
    if acc.len() > 0 && last_src != entry.0 && acc.last().len() + entry.1.len() < max {
        let u = acc.update(acc.len() - 1, acc.last() + entry.1);
        assert(u =~= acc.drop_last().push(acc.last() + entry.1));
        acc.drop_last().lemma_flatten_push(acc.last() + entry.1);
        assert(acc =~= acc.drop_last().push(acc.last()));
        acc.drop_last().lemma_flatten_push(acc.last());
        assert(acc.drop_last().flatten() + (acc.last() + entry.1) =~= (acc.drop_last().flatten()
            + acc.last()) + entry.1);
    } else {
        acc.lemma_flatten_push(entry.1);
    }
}

proof fn lemma_merge_from_flatten(
    cs: Seq<(int, Seq<char>)>,
    i: int,
    acc: Seq<Seq<char>>,
    last_src: int,
    max: int,
)
    requires
        0 <= i <= cs.len(),
    ensures
        merge_from(cs, i, acc, last_src, max).flatten() == acc.flatten() + entry_texts(
            cs.subrange(i, cs.len() as int),
        ).flatten(),
    decreases cs.len() - i,
{
    let rest = entry_texts(cs.subrange(i, cs.len() as int));
    if i >= cs.len() {
        assert(cs.subrange(i, cs.len() as int) =~= Seq::<(int, Seq<char>)>::empty());
        assert(rest =~= Seq::<Seq<char>>::empty());
        assert(acc.flatten() + rest.flatten() =~= acc.flatten());
    } else {
        lemma_merge_step_flatten(acc, last_src, cs[i], max);
        lemma_merge_from_flatten(cs, i + 1, merge_step(acc, last_src, cs[i], max), cs[i].0, max);
        assert(entry_texts(cs.subrange(i + 1, cs.len() as int)) =~= rest.drop_first());
        assert(rest.first() == cs[i].1);
        assert(rest.flatten() == cs[i].1 + rest.drop_first().flatten());
        assert((acc.flatten() + cs[i].1) + rest.drop_first().flatten() =~= acc.flatten()
            + rest.flatten());
    }
}

/// Coalescing loses nothing: with several documents, the merged request
/// chunks concatenate to exactly the labeled chunks concatenated, in order.
pub proof fn lemma_merge_concat(files: Seq<Seq<Seq<char>>>, max: int)
    requires
        files.len() >= 2,
    ensures
        merge_spec(files, max).flatten() == entry_texts(labeled_from(files, 0)).flatten(),
{
    let cs = labeled_from(files, 0);
    lemma_merge_from_flatten(cs, 0, Seq::empty(), 0, max);
    assert(cs.subrange(0, cs.len() as int) =~= cs);
    assert(Seq::<char>::empty() + entry_texts(cs).flatten() =~= entry_texts(cs).flatten());
}

fn append_digit(out: &mut String, d: usize)
    requires
        d < 10,
    ensures
        final(out)@ == old(out)@ + seq![digit_char(d as int)],
{
    if d == 0 {
        out.append("0");
        proof {
            reveal_strlit("0");
            assert("0"@ =~= seq![digit_char(d as int)]);
        }
    } else if d == 1 {
        out.append("1");
        proof {
            reveal_strlit("1");
            assert("1"@ =~= seq![digit_char(d as int)]);
        }
    } else if d == 2 {
        out.append("2");
        proof {
            reveal_strlit("2");
            assert("2"@ =~= seq![digit_char(d as int)]);
        }
    } else if d == 3 {
        out.append("3");
        proof {
            reveal_strlit("3");
            assert("3"@ =~= seq![digit_char(d as int)]);
        }
    } else if d == 4 {
        out.append("4");
        proof {
            reveal_strlit("4");
            assert("4"@ =~= seq![digit_char(d as int)]);
        }
    } else if d == 5 {
        out.append("5");
        proof {
            reveal_strlit("5");
            assert("5"@ =~= seq![digit_char(d as int)]);
        }
    } else if d == 6 {
        out.append("6");
        proof {
            reveal_strlit("6");
            assert("6"@ =~= seq![digit_char(d as int)]);
        }
    } else if d == 7 {
        out.append("7");
        proof {
            reveal_strlit("7");
            assert("7"@ =~= seq![digit_char(d as int)]);
        }
    } else if d == 8 {
        out.append("8");
        proof {
            reveal_strlit("8");
            assert("8"@ =~= seq![digit_char(d as int)]);
        }
    } else {
        out.append("9");
        proof {
            reveal_strlit("9");
            assert("9"@ =~= seq![digit_char(d as int)]);
        }
    }
}

/// Append the decimal numeral of `n`.
fn append_decimal(out: &mut String, n: usize)
    ensures
        final(out)@ == old(out)@ + decimal(n as int),
    decreases n,
{
    if n < 10 {
        append_digit(out, n);
    } else {
        append_decimal(out, n / 10);
        append_digit(out, n % 10);
        proof {
            assert((old(out)@ + decimal((n / 10) as int)) + seq![digit_char((n % 10) as int)]
                =~= old(out)@ + (decimal((n / 10) as int) + seq![digit_char((n % 10) as int)]));
        }
    }
}

/// The label of document `n`, as an owned string.
fn make_label(n: usize) -> (r: String)
    ensures
        r@ == label_seq(n as int),
{
    let mut s = "File ".to_owned();
    append_decimal(&mut s, n);
    s.append(": ");
    s
}

/// Combine the chunk lists of one or more documents into the sequence of
/// request chunks: a single document's chunks pass through unchanged, while
/// several documents are labeled per document and coalesced under
/// `max_size` across document seams only.
pub fn label_and_merge(files: &Vec<Vec<String>>, max_size: usize) -> (chunks: Vec<String>)
    requires
        files@.len() >= 1,
    ensures
        views(chunks@) == merge_spec(deep_views(files@), max_size as int),
{
    let ghost gf: Seq<Seq<Seq<char>>> = deep_views(files@);
    if files.len() == 1 {
        let file: &Vec<String> = &files[0];
        let mut out: Vec<String> = Vec::new();
        let mut j: usize = 0;
        while j < file.len()
            invariant
                j <= file.len(),
                views(out@) == views(file@).take(j as int),
            decreases file.len() - j,
        {
            let ghost prev: Seq<Seq<char>> = views(out@);
            out.push(file[j].clone());
            proof {
                assert(views(out@) =~= prev.push(file@[j as int]@));
                assert(views(file@).take(j + 1) =~= views(file@).take(j as int).push(
                    file@[j as int]@,
                ));
            }
            j = j + 1;
        }
        proof {
            assert(views(file@).take(file@.len() as int) =~= views(file@));
            assert(gf[0] == views(files@[0]@));
        }
        out
    } else {
        let mut labeled: Vec<String> = Vec::new();
        let mut srcs: Vec<usize> = Vec::new();
        let mut i: usize = 0;
        proof {
            assert(tagged(srcs@, labeled@) =~= Seq::<(int, Seq<char>)>::empty());
            assert(tagged(srcs@, labeled@) + labeled_from(gf, 0) =~= labeled_from(gf, 0));
        }
        while i < files.len()
            invariant
                i <= files.len(),
                gf == deep_views(files@),
                gf.len() == files@.len(),
                srcs@.len() == labeled@.len(),
                labeled_from(gf, 0) == tagged(srcs@, labeled@) + labeled_from(gf, i as int),
            decreases files.len() - i,
        {
            let ghost outer_start: Seq<(int, Seq<char>)> = tagged(srcs@, labeled@);
            let file: &Vec<String> = &files[i];
            proof {
                assert(gf[i as int] == views(files@[i as int]@));
            }
            let label: String = make_label(i + 1);
            let mut j: usize = 0;
            while j < file.len()
                invariant
                    j <= file.len(),
                    i < files.len(),
                    gf == deep_views(files@),
                    gf.len() == files@.len(),
                    file == &files@[i as int],
                    gf[i as int] == views(file@),
                    label@ == label_seq(i + 1),
                    srcs@.len() == labeled@.len(),
                    tagged(srcs@, labeled@) == outer_start + label_all(gf[i as int], i + 1).take(
                        j as int,
                    ),
                decreases file.len() - j,
            {
                let ghost prev: Seq<(int, Seq<char>)> = tagged(srcs@, labeled@);
                let mut s: String = label.clone();
                s.append(file[j].as_str());
                labeled.push(s);
                srcs.push(i + 1);
                proof {
                    let la = label_all(gf[i as int], i + 1);
                    assert(la[j as int] == (i + 1, label_seq(i + 1) + gf[i as int][j as int]));
                    assert(tagged(srcs@, labeled@) =~= prev.push(la[j as int]));
                    assert(la.take(j + 1) =~= la.take(j as int).push(la[j as int]));
                }
                j = j + 1;
            }
            proof {
                let la = label_all(gf[i as int], i + 1);
                assert(la.take(la.len() as int) =~= la);
                assert((outer_start + la) + labeled_from(gf, i + 1) =~= outer_start + (la
                    + labeled_from(gf, i + 1)));
            }
            i = i + 1;
        }
        let ghost cs: Seq<(int, Seq<char>)> = tagged(srcs@, labeled@);
        proof {
            assert(labeled_from(gf, 0) =~= cs + labeled_from(gf, i as int));
            assert(cs + labeled_from(gf, i as int) =~= cs);
        }
        let mut out: Vec<String> = Vec::new();
        let mut last_src: usize = 0;
        let mut k: usize = 0;
        proof {
            assert(views(out@) =~= Seq::<Seq<char>>::empty());
        }
        while k < labeled.len()
            invariant
                k <= labeled.len(),
                cs == tagged(srcs@, labeled@),
                cs.len() == labeled@.len(),
                srcs@.len() == labeled@.len(),
                merge_from(cs, 0, Seq::empty(), 0, max_size as int) == merge_from(
                    cs,
                    k as int,
                    views(out@),
                    last_src as int,
                    max_size as int,
                ),
            decreases labeled.len() - k,
        {
            let ghost acc: Seq<Seq<char>> = views(out@);
            let c: &String = &labeled[k];
            let src: usize = srcs[k];
            let c_len: usize = c.as_str().unicode_len();
            proof {
                assert(cs[k as int] == (srcs@[k as int] as int, labeled@[k as int]@));
            }
            let coalesce: bool = if out.len() > 0 && last_src != src {
                let last_len: usize = out[out.len() - 1].as_str().unicode_len();
                last_len < max_size && c_len < max_size - last_len
            } else {
                false
            };
            assert(coalesce == (acc.len() > 0 && (last_src as int) != cs[k as int].0
                && acc.last().len() + cs[k as int].1.len() < max_size));
            if coalesce {
                let prev: String = out.pop().unwrap();
                let merged: String = prev.concat(c.as_str());
                out.push(merged);
                proof {
                    assert(views(out@) =~= merge_step(
                        acc,
                        last_src as int,
                        cs[k as int],
                        max_size as int,
                    ));
                }
            } else {
                out.push(c.clone());
                proof {
                    assert(views(out@) =~= merge_step(
                        acc,
                        last_src as int,
                        cs[k as int],
                        max_size as int,
                    ));
                }
            }
            last_src = src;
            k = k + 1;
        }
        out
    }
}

} // verus!
