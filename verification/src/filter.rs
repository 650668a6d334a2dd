use vstd::prelude::*;
use crate::error::SpritesheetErr;
use crate::img::{Image, ImageModel, views};

verus! {

/// How many images in `s` have resolution `k`.
pub open spec fn count_res(s: Seq<ImageModel>, k: (nat, nat)) -> nat
    decreases s.len(),
{
    if s.len() == 0 {
        0
    } else {
        count_res(s.drop_last(), k) + if s.last().res() == k {
            1nat
        } else {
            0nat
        }
    }
}

/// The images of `s` whose resolution is `k`, in input order.
pub open spec fn keep_res(s: Seq<ImageModel>, k: (nat, nat)) -> Seq<ImageModel>
    decreases s.len(),
{
    if s.len() == 0 {
        Seq::empty()
    } else if s.last().res() == k {
        keep_res(s.drop_last(), k).push(s.last())
    } else {
        keep_res(s.drop_last(), k)
    }
}

/// Adds one sighting of key `k` to a tally: the first entry with that key is
/// incremented, or a fresh entry with count one is appended.
pub open spec fn bump(t: Seq<((nat, nat), nat)>, k: (nat, nat)) -> Seq<((nat, nat), nat)>
    decreases t.len(),
{
    if t.len() == 0 {
        seq![(k, 1nat)]
    } else if t.first().0 == k {
        seq![(t.first().0, (t.first().1 + 1) as nat)] + t.drop_first()
    } else {
        seq![t.first()] + bump(t.drop_first(), k)
    }
}

/// The resolution tally of `s`: one count per key, keys in first-seen order.
pub open spec fn tally(s: Seq<ImageModel>) -> Seq<((nat, nat), nat)>
    decreases s.len(),
{
    if s.len() == 0 {
        Seq::empty()
    } else {
        bump(tally(s.drop_last()), s.last().res())
    }
}

/// The count recorded for key `k`: that of the first entry with the key, or
/// zero where there is none.
pub open spec fn tcount(t: Seq<((nat, nat), nat)>, k: (nat, nat)) -> nat
    decreases t.len(),
{
    if t.len() == 0 {
        0
    } else if t.first().0 == k {
        t.first().1
    } else {
        tcount(t.drop_first(), k)
    }
}

/// The entry with the greatest count; on a tie the earlier entry wins.
pub open spec fn best_entry(t: Seq<((nat, nat), nat)>) -> ((nat, nat), nat)
    recommends
        t.len() >= 1,
    decreases t.len(),
{
    if t.len() <= 1 {
        t[0]
    } else {
        let b = best_entry(t.drop_last());
        if t.last().1 > b.1 {
            t.last()
        } else {
            b
        }
    }
}

/// The dominant resolution of a non-empty image list: the most common
/// (height, width) pair, the first-seen one on a tie.
pub open spec fn dominant(s: Seq<ImageModel>) -> (nat, nat)
    recommends
        s.len() >= 1,
{
    best_entry(tally(s)).0
}

pub open spec fn distinct_keys(t: Seq<((nat, nat), nat)>) -> bool {
    forall|i: int, j: int| 0 <= i < j < t.len() ==> t[i].0 != t[j].0
}

/// Bumping the key `k` raises its recorded count by one and leaves every
/// other key's count alone.
pub proof fn lemma_bump_tcount(t: Seq<((nat, nat), nat)>, k: (nat, nat), q: (nat, nat))
    ensures
        tcount(bump(t, k), k) == tcount(t, k) + 1,
        q != k ==> tcount(bump(t, k), q) == tcount(t, q),
    decreases t.len(),
{
    if t.len() == 0 {
        assert(bump(t, k).first() == (k, 1nat));
        assert(bump(t, k).drop_first() =~= Seq::<((nat, nat), nat)>::empty());
        if q != k {
            assert(tcount(bump(t, k), q) == tcount(bump(t, k).drop_first(), q));
            assert(tcount(Seq::<((nat, nat), nat)>::empty(), q) == 0);
        }
    } else if t.first().0 == k {
        let b = bump(t, k);
        assert(b.first() == (t.first().0, (t.first().1 + 1) as nat));
        assert(b.drop_first() =~= t.drop_first());
        if q != k {
            assert(tcount(b, q) == tcount(b.drop_first(), q));
            assert(tcount(t, q) == tcount(t.drop_first(), q));
        }
    } else {
        let b = bump(t, k);
        assert(b.first() == t.first());
        assert(b.drop_first() =~= bump(t.drop_first(), k));
        lemma_bump_tcount(t.drop_first(), k, q);
        if q != k {
            if q == t.first().0 {
                assert(tcount(b, q) == b.first().1);
                assert(tcount(t, q) == t.first().1);
            } else {
                assert(tcount(b, q) == tcount(bump(t.drop_first(), k), q));
                assert(tcount(t, q) == tcount(t.drop_first(), q));
            }
        }
    }
}

/// Every key of `bump(t, k)` is `k` or a key of `t`, and the keys stay
/// distinct; counts stay positive and grow by at most one.
pub proof fn lemma_bump_shape(t: Seq<((nat, nat), nat)>, k: (nat, nat), bound: nat)
    requires
        distinct_keys(t),
        forall|j: int| 0 <= j < t.len() ==> 1 <= #[trigger] t[j].1 <= bound,
    ensures
        bump(t, k).len() >= 1,
        t.len() <= bump(t, k).len() <= t.len() + 1,
        distinct_keys(bump(t, k)),
        forall|j: int| 0 <= j < bump(t, k).len() ==> 1 <= #[trigger] bump(t, k)[j].1 <= bound + 1,
        forall|j: int|
            0 <= j < bump(t, k).len() ==> (#[trigger] bump(t, k)[j].0 == k || exists|l: int|
                0 <= l < t.len() && t[l].0 == bump(t, k)[j].0),
    decreases t.len(),
{
    if t.len() == 0 {
        assert(bump(t, k) =~= seq![(k, 1nat)]);
    } else if t.first().0 == k {
        let b = bump(t, k);
        assert(b =~= seq![(t.first().0, (t.first().1 + 1) as nat)] + t.drop_first());
        assert forall|j: int| 0 <= j < b.len() implies 1 <= #[trigger] b[j].1 <= bound + 1 by {
            if j >= 1 {
                assert(b[j] == t[j]);
            }
        }
        assert forall|j: int|
            0 <= j < b.len() implies (#[trigger] b[j].0 == k || exists|l: int|
            0 <= l < t.len() && t[l].0 == b[j].0) by {
            if j >= 1 {
                assert(t[j].0 == b[j].0);
            }
        }
        assert forall|i: int, j: int| 0 <= i < j < b.len() implies b[i].0 != b[j].0 by {
            assert(b[i].0 == t[i].0 && b[j].0 == t[j].0);
        }
    } else {
        let b = bump(t, k);
        let r = bump(t.drop_first(), k);
        assert(distinct_keys(t.drop_first())) by {
            assert(forall|i: int, j: int|
                0 <= i < j < t.drop_first().len() ==> t.drop_first()[i] == t[i + 1] && t.drop_first()[j]
                    == t[j + 1]);
        }
        lemma_bump_shape(t.drop_first(), k, bound);
        assert(b =~= seq![t.first()] + r);
        assert forall|j: int| 0 <= j < b.len() implies 1 <= #[trigger] b[j].1 <= bound + 1 by {
            if j >= 1 {
                assert(b[j] == r[j - 1]);
            } else {
                assert(b[0] == t[0]);
            }
        }
        assert forall|j: int|
            0 <= j < b.len() implies (#[trigger] b[j].0 == k || exists|l: int|
            0 <= l < t.len() && t[l].0 == b[j].0) by {
            if j == 0 {
                assert(t[0].0 == b[0].0);
            } else {
                assert(b[j] == r[j - 1]);
                if r[j - 1].0 != k {
                    let l = choose|l: int|
                        0 <= l < t.drop_first().len() && t.drop_first()[l].0 == r[j - 1].0;
                    assert(t[l + 1].0 == b[j].0);
                }
            }
        }
        assert forall|i: int, j: int| 0 <= i < j < b.len() implies b[i].0 != b[j].0 by {
            if i == 0 {
                // b[0] is t[0], whose key is neither k nor any key of t.drop_first()
                assert(b[j] == r[j - 1]);
                if r[j - 1].0 == k {
                } else {
                    let l = choose|l: int|
                        0 <= l < t.drop_first().len() && t.drop_first()[l].0 == r[j - 1].0;
                    assert(t.drop_first()[l] == t[l + 1]);
                }
            } else {
                assert(b[i] == r[i - 1] && b[j] == r[j - 1]);
            }
        }
    }
}

/// The tally of `s` has distinct keys, counts between one and `s.len()`, and
/// at least one entry when `s` is non-empty.
pub proof fn lemma_tally_shape(s: Seq<ImageModel>)
    ensures
        distinct_keys(tally(s)),
        s.len() >= 1 ==> tally(s).len() >= 1,
        forall|j: int| 0 <= j < tally(s).len() ==> 1 <= #[trigger] tally(s)[j].1 <= s.len(),
    decreases s.len(),
{
    if s.len() > 0 {
        lemma_tally_shape(s.drop_last());
        lemma_bump_shape(tally(s.drop_last()), s.last().res(), (s.len() - 1) as nat);
    }
}

/// The tally records for every key exactly its number of occurrences in `s`.
pub proof fn lemma_tally_tcount(s: Seq<ImageModel>, k: (nat, nat))
    ensures
        tcount(tally(s), k) == count_res(s, k),
    decreases s.len(),
{
    if s.len() > 0 {
        lemma_tally_tcount(s.drop_last(), k);
        lemma_bump_tcount(tally(s.drop_last()), s.last().res(), k);
    }
}

/// The best entry is an entry, and its count is maximal.
pub proof fn lemma_best(t: Seq<((nat, nat), nat)>)
    requires
        t.len() >= 1,
    ensures
        exists|j: int| 0 <= j < t.len() && t[j] == best_entry(t),
        forall|j: int| 0 <= j < t.len() ==> #[trigger] t[j].1 <= best_entry(t).1,
    decreases t.len(),
{
    if t.len() == 1 {
        assert(t[0] == best_entry(t));
    } else {
        lemma_best(t.drop_last());
        assert(forall|j: int| 0 <= j < t.len() - 1 ==> t.drop_last()[j] == t[j]);
        if !(t.last().1 > best_entry(t.drop_last()).1) {
            let j = choose|j: int|
                0 <= j < t.drop_last().len() && t.drop_last()[j] == best_entry(t.drop_last());
            assert(t[j] == best_entry(t));
        }
    }
}

/// In a tally with distinct keys, the count looked up for an entry's key is
/// that entry's count.
pub proof fn lemma_tcount_member(t: Seq<((nat, nat), nat)>, j: int)
    requires
        distinct_keys(t),
        0 <= j < t.len(),
    ensures
        tcount(t, t[j].0) == t[j].1,
    decreases j,
{
    if j == 0 {
        assert(tcount(t, t.first().0) == t.first().1);
    } else {
        assert(t.first().0 != t[j].0);
        assert(distinct_keys(t.drop_first())) by {
            assert(forall|i: int, l: int|
                0 <= i < l < t.drop_first().len() ==> t.drop_first()[i] == t[i + 1]
                    && t.drop_first()[l] == t[l + 1]);
        }
        assert(t.drop_first()[j - 1] == t[j]);
        lemma_tcount_member(t.drop_first(), j - 1);
    }
}

/// Any looked-up count is zero or the count of some entry with that key.
pub proof fn lemma_tcount_val(t: Seq<((nat, nat), nat)>, k: (nat, nat))
    ensures
        tcount(t, k) == 0 || exists|j: int|
            0 <= j < t.len() && t[j].0 == k && t[j].1 == tcount(t, k),
    decreases t.len(),
{
    if t.len() > 0 && t.first().0 != k {
        lemma_tcount_val(t.drop_first(), k);
        if tcount(t.drop_first(), k) != 0 {
            let j = choose|j: int|
                0 <= j < t.drop_first().len() && t.drop_first()[j].0 == k && t.drop_first()[j].1
                    == tcount(t.drop_first(), k);
            assert(t[j + 1] == t.drop_first()[j]);
        }
    }
}

/// The dominant group has as many members as the dominant count.
pub proof fn lemma_keep_len(s: Seq<ImageModel>, k: (nat, nat))
    ensures
        keep_res(s, k).len() == count_res(s, k),
    decreases s.len(),
{
    if s.len() > 0 {
        lemma_keep_len(s.drop_last(), k);
    }
}

/// Every member of `keep_res(s, k)` has resolution `k` and occurs in `s`.
pub proof fn lemma_keep_elts(s: Seq<ImageModel>, k: (nat, nat))
    ensures
        forall|j: int|
            0 <= j < keep_res(s, k).len() ==> (#[trigger] keep_res(s, k)[j]).res() == k
                && s.contains(keep_res(s, k)[j]),
    decreases s.len(),
{
    if s.len() > 0 {
        lemma_keep_elts(s.drop_last(), k);
        assert forall|j: int| 0 <= j < keep_res(s, k).len() implies (#[trigger] keep_res(s, k)[j]).res()
            == k && s.contains(keep_res(s, k)[j]) by {
            let p = keep_res(s.drop_last(), k);
            if j < p.len() {
                assert(keep_res(s, k)[j] == p[j]);
                let i = choose|i: int| 0 <= i < s.drop_last().len() && s.drop_last()[i] == p[j];
                assert(s[i] == p[j]);
            } else {
                assert(keep_res(s, k)[j] == s.last());
                assert(s[s.len() - 1] == s.last());
            }
        }
    }
}

/// Law: for any non-empty image list, the dominant-resolution group is
/// non-empty, all its members share the dominant resolution, and the dominant
/// resolution's count is at least every resolution's count in the input.
pub proof fn lemma_filter_dominant(s: Seq<ImageModel>)
    requires
        s.len() >= 1,
    ensures
        keep_res(s, dominant(s)).len() >= 1,
        forall|j: int|
            0 <= j < keep_res(s, dominant(s)).len() ==> (#[trigger] keep_res(
                s,
                dominant(s),
            )[j]).res() == dominant(s) && s.contains(keep_res(s, dominant(s))[j]),
        forall|k: (nat, nat)| #[trigger] count_res(s, k) <= count_res(s, dominant(s)),
{
    let t = tally(s);
    lemma_tally_shape(s);
    lemma_best(t);
    let j = choose|j: int| 0 <= j < t.len() && t[j] == best_entry(t);
    lemma_tcount_member(t, j);
    lemma_tally_tcount(s, dominant(s));
    assert(count_res(s, dominant(s)) == best_entry(t).1);
    lemma_keep_len(s, dominant(s));
    lemma_keep_elts(s, dominant(s));
    assert forall|k: (nat, nat)| #[trigger] count_res(s, k) <= count_res(s, dominant(s)) by {
        lemma_tally_tcount(s, k);
        lemma_tcount_val(t, k);
    }
}

/// Law: where every image already shares one resolution, that resolution is
/// dominant and the filter keeps the whole list, order untouched.
pub proof fn lemma_filter_homogeneous(s: Seq<ImageModel>)
    requires
        s.len() >= 1,
        forall|i: int| 0 <= i < s.len() ==> (#[trigger] s[i]).res() == s[0].res(),
    ensures
        dominant(s) == s[0].res(),
        keep_res(s, s[0].res()) == s,
    decreases s.len(),
{
    let r = s[0].res();
    lemma_tally_single(s);
    assert(best_entry(seq![(r, s.len() as nat)]) == (r, s.len() as nat));
    if s.len() == 1 {
        assert(s.last() == s[0] && s.last().res() == r);
        assert(s.drop_last().len() == 0);
        assert(keep_res(s.drop_last(), r) == Seq::<ImageModel>::empty());
        assert(keep_res(s, r) == keep_res(s.drop_last(), r).push(s.last()));
        assert(keep_res(s, r) =~= s);
    } else {
        let p = s.drop_last();
        assert(forall|i: int| 0 <= i < p.len() ==> (#[trigger] p[i]).res() == p[0].res());
        lemma_filter_homogeneous(p);
        assert(s.last().res() == r);
        assert(keep_res(s, r) =~= s);
    }
}

/// In a homogeneous list the tally is one entry carrying the whole count.
proof fn lemma_tally_single(s: Seq<ImageModel>)
    requires
        s.len() >= 1,
        forall|i: int| 0 <= i < s.len() ==> (#[trigger] s[i]).res() == s[0].res(),
    ensures
        tally(s) == seq![(s[0].res(), s.len() as nat)],
    decreases s.len(),
{
    let r = s[0].res();
    if s.len() == 1 {
        assert(tally(s) == bump(tally(s.drop_last()), s.last().res()));
        assert(s.drop_last().len() == 0);
        assert(tally(s.drop_last()) == Seq::<((nat, nat), nat)>::empty());
        assert(s.last() == s[0]);
        assert(bump(Seq::<((nat, nat), nat)>::empty(), r) =~= seq![(r, 1nat)]);
    } else {
        let p = s.drop_last();
        assert(forall|i: int| 0 <= i < p.len() ==> (#[trigger] p[i]).res() == p[0].res());
        lemma_tally_single(p);
        let t = seq![(r, (s.len() - 1) as nat)];
        assert(s.last().res() == r);
        assert(t.first().0 == r);
        assert(bump(t, r) =~= seq![(r, s.len() as nat)]);
    }
}

/// Where the first entry with key `k` stands at `j`, bumping updates it in
/// place.
pub proof fn lemma_bump_at(t: Seq<((nat, nat), nat)>, k: (nat, nat), j: int)
    requires
        0 <= j < t.len(),
        t[j].0 == k,
        forall|l: int| 0 <= l < j ==> t[l].0 != k,
    ensures
        bump(t, k) == t.update(j, (k, (t[j].1 + 1) as nat)),
    decreases j,
{
    if j == 0 {
        assert(t.first().0 == k);
        assert(bump(t, k) =~= t.update(0, (k, (t[0].1 + 1) as nat)));
    } else {
        let p = t.drop_first();
        assert(t.first().0 != k);
        assert(p[j - 1] == t[j]);
        assert(forall|l: int| 0 <= l < j - 1 ==> p[l] == t[l + 1]);
        lemma_bump_at(p, k, j - 1);
        assert(bump(t, k) == seq![t.first()] + bump(p, k));
        assert(seq![t.first()] + p.update(j - 1, (k, (p[j - 1].1 + 1) as nat)) =~= t.update(
            j,
            (k, (t[j].1 + 1) as nat),
        ));
    }
}

/// With no entry of key `k`, bumping appends a fresh entry of count one.
pub proof fn lemma_bump_append(t: Seq<((nat, nat), nat)>, k: (nat, nat))
    requires
        forall|l: int| 0 <= l < t.len() ==> t[l].0 != k,
    ensures
        bump(t, k) == t.push((k, 1nat)),
    decreases t.len(),
{
    if t.len() == 0 {
        assert(bump(t, k) =~= t.push((k, 1nat)));
    } else {
        let p = t.drop_first();
        assert(forall|l: int| 0 <= l < p.len() ==> p[l] == t[l + 1]);
        lemma_bump_append(p, k);
        assert(bump(t, k) == seq![t.first()] + bump(p, k));
        assert(seq![t.first()] + p.push((k, 1nat)) =~= t.push((k, 1nat)));
    }
}

/// The model of the tally vector: each (height, width, count) triple as a
/// keyed entry.
pub open spec fn emodel(c: Seq<(u32, u32, usize)>) -> Seq<((nat, nat), nat)> {
    Seq::new(c.len(), |j: int| ((c[j].0 as nat, c[j].1 as nat), c[j].2 as nat))
}

/// Resolution Filter: of a non-empty image list, keeps exactly the images of
/// the dominant (height, width) pair, in input order; the first-seen pair
/// wins a tie in the counts. An empty input is the one failure.
pub fn filter_images(images: Vec<Image>) -> (r: Result<Vec<Image>, SpritesheetErr>)
    ensures
        match r {
            Ok(out) => images@.len() >= 1 && views(out@) == keep_res(
                views(images@),
                dominant(views(images@)),
            ),
            Err(e) => e == SpritesheetErr::FilterImages && images@.len() == 0,
        },
{
    let ghost ms = views(images@);
    if images.len() == 0 {
        return Err(SpritesheetErr::FilterImages);
    }
    let mut counts: Vec<(u32, u32, usize)> = Vec::new();
    let mut i: usize = 0;
    while i < images.len()
        invariant
            i <= images@.len(),
            ms == views(images@),
            emodel(counts@) == tally(ms.take(i as int)),
            forall|l: int| 0 <= l < counts@.len() ==> #[trigger] counts@[l].2 <= i,
        decreases images@.len() - i,
    {
        let h: u32 = images[i].height();
        let w: u32 = images[i].width();
        let ghost key = ms[i as int].res();
        proof {
            assert(ms[i as int] == images@[i as int]@);
            assert(key == (h as nat, w as nat));
            assert(ms.take(i + 1).drop_last() =~= ms.take(i as int));
            assert(ms.take(i + 1).last() == ms[i as int]);
        }
        let mut j: usize = 0;
        while j < counts.len() && !(counts[j].0 == h && counts[j].1 == w)
            invariant
                j <= counts@.len(),
                forall|l: int| 0 <= l < j ==> !(counts@[l].0 == h && counts@[l].1 == w),
            decreases counts@.len() - j,
        {
            j = j + 1;
        }
        let ghost told = emodel(counts@);
        if j < counts.len() {
            let c: usize = counts[j].2;
            counts[j] = (h, w, c + 1);
            proof {
                assert(told[j as int].0 == key && told[j as int].1 == c as nat);
                assert(forall|l: int| 0 <= l < j ==> #[trigger] told[l].0 != key);
                lemma_bump_at(told, key, j as int);
                assert(emodel(counts@) =~= told.update(j as int, (key, (c + 1) as nat)));
            }
        } else {
            counts.push((h, w, 1));
            proof {
                assert(forall|l: int| 0 <= l < told.len() ==> #[trigger] told[l].0 != key);
                lemma_bump_append(told, key);
                assert(emodel(counts@) =~= told.push((key, 1nat)));
            }
        }
        i = i + 1;
    }
    proof {
        assert(ms.take(images@.len() as int) =~= ms);
        lemma_tally_shape(ms);
        assert(emodel(counts@).len() >= 1);
    }
    let mut bh: u32 = counts[0].0;
    let mut bw: u32 = counts[0].1;
    let mut bc: usize = counts[0].2;
    let mut q: usize = 1;
    proof {
        assert(emodel(counts@).take(1)[0] == emodel(counts@)[0]);
        assert(emodel(counts@).take(1).len() == 1);
    }
    while q < counts.len()
        invariant
            1 <= q <= counts@.len(),
            emodel(counts@) == tally(ms),
            ((bh as nat, bw as nat), bc as nat) == best_entry(emodel(counts@).take(q as int)),
        decreases counts@.len() - q,
    {
        let ghost t = emodel(counts@);
        proof {
            assert(t.take(q + 1).drop_last() =~= t.take(q as int));
            assert(t.take(q + 1).last() == t[q as int]);
        }
        if counts[q].2 > bc {
            bh = counts[q].0;
            bw = counts[q].1;
            bc = counts[q].2;
        }
        q = q + 1;
    }
    let ghost dom = dominant(ms);
    proof {
        assert(emodel(counts@).take(counts@.len() as int) =~= emodel(counts@));
        assert((bh as nat, bw as nat) == dom);
    }
    let mut imgs = images;
    let mut out: Vec<Image> = Vec::new();
    let mut k: usize = 0;
    while imgs.len() > 0
        invariant
            k + imgs@.len() == ms.len(),
            ms.len() <= usize::MAX,
            dom == dominant(ms),
            (bh as nat, bw as nat) == dom,
            forall|l: int| 0 <= l < imgs@.len() ==> #[trigger] imgs@[l]@ == ms[k + l],
            views(out@) == keep_res(ms.take(k as int), dom),
        decreases imgs@.len(),
    {
        let img = imgs.remove(0);
        let h2: u32 = img.height();
        let w2: u32 = img.width();
        proof {
            assert(img@ == ms[k as int]);
            assert(ms.take(k + 1).drop_last() =~= ms.take(k as int));
            assert(ms.take(k + 1).last() == ms[k as int]);
        }
        let ghost out_old = views(out@);
        if h2 == bh && w2 == bw {
            out.push(img);
            proof {
                assert(ms[k as int].res() == dom);
                assert(views(out@) =~= out_old.push(ms[k as int]));
            }
        } else {
            proof {
                assert(ms[k as int].res() != dom);
            }
        }
        k = k + 1;
    }
    proof {
        assert(ms.take(ms.len() as int) =~= ms);
    }
    Ok(out)
}

} // verus!
