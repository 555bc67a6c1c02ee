//! The bundler: concatenates module bodies in build order, discarding every
//! comment line, into one newline-separated artifact.

use vstd::prelude::*;

use crate::bytes::{clone_bytes, push_all, split_lines, split_lines_vec, views_of};
use crate::walker::{find_tbl, lemma_tbl_key_idx_unique, tbl_has_key, tbl_text, tbl_wf};

verus! {

/// A line as the bundler reads it: without one trailing carriage return.
pub open spec fn strip_cr(l: Seq<u8>) -> Seq<u8> {
    if l.len() > 0 && l.last() == 13 {
        l.drop_last()
    } else {
        l
    }
}

/// The lines of a module body: split on newlines, a final empty segment (from
/// a trailing newline) not counted, carriage returns stripped.
pub open spec fn text_lines(t: Seq<u8>) -> Seq<Seq<u8>> {
    let raw = split_lines(t);
    let trimmed = if raw.last().len() == 0 {
        raw.drop_last()
    } else {
        raw
    };
    trimmed.map_values(|l: Seq<u8>| strip_cr(l))
}

/// A line beginning with the comment marker; directive lines are comment
/// lines too, and are likewise discarded from the artifact.
pub open spec fn is_comment(l: Seq<u8>) -> bool {
    l.len() > 0 && l[0] == 35
}

/// The lines of a module that reach the artifact.
pub open spec fn kept_lines(t: Seq<u8>) -> Seq<Seq<u8>> {
    text_lines(t).filter(|l: Seq<u8>| !is_comment(l))
}

/// The comment lines of a module.
pub open spec fn comment_lines(t: Seq<u8>) -> Seq<Seq<u8>> {
    text_lines(t).filter(|l: Seq<u8>| is_comment(l))
}

/// Lines joined by single newlines, no trailing newline.
pub open spec fn joined(ls: Seq<Seq<u8>>) -> Seq<u8>
    decreases ls.len(),
{
    if ls.len() == 0 {
        seq![]
    } else if ls.len() == 1 {
        ls[0]
    } else {
        ls[0] + seq![10u8] + joined(ls.drop_first())
    }
}

/// All kept lines of the ordered modules, in order.
pub open spec fn bundle_lines(order: Seq<Vec<u8>>, tbl: Seq<(Vec<u8>, Vec<u8>)>) -> Seq<Seq<u8>>
    decreases order.len(),
{
    if order.len() == 0 {
        seq![]
    } else {
        bundle_lines(order.drop_last(), tbl) + kept_lines(tbl_text(tbl, order.last()@))
    }
}

/// The artifact: every kept line of every ordered module, newline-separated.
pub open spec fn bundle_spec(order: Seq<Vec<u8>>, tbl: Seq<(Vec<u8>, Vec<u8>)>) -> Seq<u8> {
    joined(bundle_lines(order, tbl))
}

proof fn lemma_joined_push(ls: Seq<Seq<u8>>, l: Seq<u8>)
    ensures
        joined(ls.push(l)) == if ls.len() == 0 {
            l
        } else {
            joined(ls) + seq![10u8] + l
        },
    decreases ls.len(),
{
    let p = ls.push(l);
    if ls.len() == 0 {
        assert(p[0] == l);
    } else {
        lemma_joined_push(ls.drop_first(), l);
        assert(p.drop_first() =~= ls.drop_first().push(l));
        assert(p[0] == ls[0]);
        if ls.len() == 1 {
            assert(joined(p) == ls[0] + seq![10u8] + joined(ls.drop_first().push(l)));
            assert(joined(ls.drop_first().push(l)) == l);
        } else {
            assert(joined(p) == ls[0] + seq![10u8] + (joined(ls.drop_first()) + seq![10u8] + l));
            assert(ls[0] + seq![10u8] + (joined(ls.drop_first()) + seq![10u8] + l) =~= (ls[0]
                + seq![10u8] + joined(ls.drop_first())) + seq![10u8] + l);
        }
    }
}

proof fn lemma_filter_partition(ls: Seq<Seq<u8>>)
    ensures
        ls.filter(|l: Seq<u8>| !is_comment(l)).len() + ls.filter(|l: Seq<u8>| is_comment(l)).len()
            == ls.len(),
    decreases ls.len(),
{
    reveal(Seq::filter);
    if ls.len() > 0 {
        lemma_filter_partition(ls.drop_last());
    }
}

/// Comment stripping: a module whose body has N comment lines (directive
/// lines included, since a directive line opens with the comment marker) and
/// M other lines contributes exactly M lines to the artifact.
pub proof fn lemma_comment_stripping(t: Seq<u8>)
    ensures
        kept_lines(t).len() + comment_lines(t).len() == text_lines(t).len(),
{
    lemma_filter_partition(text_lines(t));
}

/// A directive line is a comment line: it is discarded from the artifact.
pub proof fn lemma_directive_is_comment(l: Seq<u8>)
    ensures
        crate::sort::is_use_line(l) ==> is_comment(l),
{
}

/// Error of bundling: the order names a module absent from the table.
#[derive(Debug, PartialEq, Eq)]
pub enum BundleError {
    MissingModule { name: Vec<u8> },
}

/// A line with one trailing carriage return removed.
fn strip_cr_x(l: &Vec<u8>) -> (r: Vec<u8>)
    ensures
        r@ == strip_cr(l@),
{
    let n: usize = if l.len() > 0 && l[l.len() - 1] == 13 {
        l.len() - 1
    } else {
        l.len()
    };
    let mut r: Vec<u8> = Vec::new();
    let mut i: usize = 0;
    while i < n
        invariant
            0 <= i <= n <= l@.len(),
            r@ == l@.subrange(0, i as int),
        decreases n - i,
    {
        r.push(l[i]);
        proof {
            assert(l@.subrange(0, i + 1) =~= l@.subrange(0, i as int).push(l@[i as int]));
        }
        i = i + 1;
    }
    proof {
        if l@.len() > 0 && l@.last() == 13 {
            assert(l@.subrange(0, n as int) =~= l@.drop_last());
        } else {
            assert(l@.subrange(0, n as int) =~= l@);
        }
    }
    r
}

/// Concatenate the ordered modules' bodies, comment lines discarded, into
/// one newline-separated artifact. Fails, naming the module, exactly when
/// the order holds a name the table does not.
pub fn bundle(order: &Vec<Vec<u8>>, table: &Vec<(Vec<u8>, Vec<u8>)>) -> (r: Result<
    Vec<u8>,
    BundleError,
>)
    requires
        tbl_wf(table@),
    ensures
        r is Ok <==> (forall|i: int|
            0 <= i < order@.len() ==> tbl_has_key(table@, #[trigger] order@[i]@)),
        r matches Ok(out) ==> out@ == bundle_spec(order@, table@),
        r matches Err(BundleError::MissingModule { name }) ==> exists|i: int|
            0 <= i < order@.len() && #[trigger] order@[i]@ == name@ && !tbl_has_key(table@, name@)
                && (forall|i2: int| 0 <= i2 < i ==> tbl_has_key(table@, #[trigger] order@[i2]@)),
{
    let on = order.len();
    let mut out: Vec<u8> = Vec::new();
    let mut started = false;
    let mut mi: usize = 0;
    proof {
        assert(order@.subrange(0, 0) =~= Seq::<Vec<u8>>::empty());
        assert(bundle_lines(order@.subrange(0, 0), table@) =~= Seq::<Seq<u8>>::empty());
    }
    while mi < on
        invariant
            0 <= mi <= on,
            on == order@.len(),
            tbl_wf(table@),
            forall|i2: int| 0 <= i2 < mi ==> tbl_has_key(table@, #[trigger] order@[i2]@),
            out@ == joined(bundle_lines(order@.subrange(0, mi as int), table@)),
            started <==> bundle_lines(order@.subrange(0, mi as int), table@).len() > 0,
        decreases on - mi,
    {
        let ghost acc0 = bundle_lines(order@.subrange(0, mi as int), table@);
        let ti = match find_tbl(table, &order[mi]) {
            Some(ti) => ti,
            None => {
                let name = clone_bytes(&order[mi]);
                proof {
                    assert(order@[mi as int]@ == name@);
                    assert(!tbl_has_key(table@, name@));
                }
                return Err(BundleError::MissingModule { name });
            },
        };
        proof {
            lemma_tbl_key_idx_unique(table@, order@[mi as int]@, ti as int);
        }
        let ghost tv = table@[ti as int].1@;
        let lines = split_lines_vec(&table[ti].1);
        let ghost raw = split_lines(tv);
        let ghost trimmed = if raw.last().len() == 0 {
            raw.drop_last()
        } else {
            raw
        };
        let ln = lines.len();
        let upto: usize = if lines[ln - 1].len() == 0 {
            ln - 1
        } else {
            ln
        };
        proof {
            assert(views_of(lines@)[ln - 1] == raw.last());
            assert(upto as int == trimmed.len());
            assert(text_lines(tv).len() == trimmed.len());
            assert(text_lines(tv).subrange(0, 0) =~= Seq::<Seq<u8>>::empty());
            assert(text_lines(tv).subrange(0, 0).filter(|l: Seq<u8>| !is_comment(l)) =~= Seq::<
                Seq<u8>,
            >::empty());
            assert(acc0 + Seq::<Seq<u8>>::empty() =~= acc0);
        }
        let mut k: usize = 0;
        while k < upto
            invariant
                0 <= k <= upto,
                upto as int == text_lines(tv).len(),
                upto <= ln,
                ln == lines@.len(),
                views_of(lines@) == raw,
                raw == split_lines(tv),
                trimmed == (if raw.last().len() == 0 {
                    raw.drop_last()
                } else {
                    raw
                }),
                text_lines(tv) == trimmed.map_values(|l: Seq<u8>| strip_cr(l)),
                acc0 == bundle_lines(order@.subrange(0, mi as int), table@),
                out@ == joined(
                    acc0 + text_lines(tv).subrange(0, k as int).filter(
                        |l: Seq<u8>| !is_comment(l),
                    ),
                ),
                started <==> (acc0 + text_lines(tv).subrange(0, k as int).filter(
                    |l: Seq<u8>| !is_comment(l),
                )).len() > 0,
            decreases upto - k,
        {
            let line = strip_cr_x(&lines[k]);
            proof {
                assert(trimmed[k as int] == raw[k as int]);
                assert(lines@[k as int]@ == raw[k as int]);
                assert(text_lines(tv)[k as int] == strip_cr(raw[k as int]));
                assert(line@ == text_lines(tv)[k as int]);
                reveal(Seq::filter);
                assert(text_lines(tv).subrange(0, k + 1).drop_last() =~= text_lines(
                    tv,
                ).subrange(0, k as int));
                assert(text_lines(tv).subrange(0, k + 1).last() == text_lines(tv)[k as int]);
            }
            let keep = !(line.len() > 0 && line[0] == 35);
            proof {
                assert(keep == !is_comment(line@));
            }
            if keep {
                let ghost acc = acc0 + text_lines(tv).subrange(0, k as int).filter(
                    |l: Seq<u8>| !is_comment(l),
                );
                proof {
                    lemma_joined_push(acc, line@);
                    assert(acc0 + text_lines(tv).subrange(0, k + 1).filter(
                        |l: Seq<u8>| !is_comment(l),
                    ) =~= acc.push(line@));
                }
                if started {
                    out.push(10);
                }
                push_all(&mut out, &line);
                started = true;
                proof {
                    if acc.len() == 0 {
                        assert(out@ =~= acc.push(line@)[0]);
                        assert(joined(acc.push(line@)) == line@);
                        assert(out@ =~= line@);
                    }
                }
            } else {
                proof {
                    assert(text_lines(tv).subrange(0, k + 1).filter(
                        |l: Seq<u8>| !is_comment(l),
                    ) =~= text_lines(tv).subrange(0, k as int).filter(
                        |l: Seq<u8>| !is_comment(l),
                    ));
                }
            }
            k = k + 1;
        }
        proof {
            assert(text_lines(tv).subrange(0, upto as int) =~= text_lines(tv));
            assert(order@.subrange(0, mi + 1).drop_last() =~= order@.subrange(0, mi as int));
            assert(order@.subrange(0, mi + 1).last() == order@[mi as int]);
            assert(tbl_text(table@, order@[mi as int]@) == tv);
            assert(bundle_lines(order@.subrange(0, mi + 1), table@) =~= acc0 + kept_lines(tv));
            assert(kept_lines(tv) == text_lines(tv).filter(|l: Seq<u8>| !is_comment(l)));
        }
        mi = mi + 1;
    }
    proof {
        assert(order@.subrange(0, on as int) =~= order@);
    }
    Ok(out)
}

} // verus!
