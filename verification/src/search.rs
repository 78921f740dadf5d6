use vstd::prelude::*;

verus! {

use crate::codec::opt_view;
use crate::fileinfo::FileInfo;
use crate::result::{ItoolsError, ItoolsResult};
use crate::strmap::{StrMap, seq_get, seq_has_key, keys_unique};

/// Which fingerprint the search compares, and within what Hamming-distance
/// tolerance. Content digests have no meaningful near-equality, so the
/// content kind always searches exactly.
#[derive(Debug, Clone, Copy, PartialEq, Eq, Structural)]
pub enum SearchType {
    SHA2,
    MEAN(u8),
    GRAD(u8),
    DCT(u8),
}

impl Default for SearchType {
    /// Content-digest search at distance zero.
    fn default() -> (r: SearchType)
        ensures
            r == SearchType::SHA2,
    {
        SearchType::SHA2
    }
}

/// One search result: a query file and the files sharing its fingerprint
/// within the tolerance.
#[derive(Debug, Clone, PartialEq, Eq)]
pub struct Matches {
    pub filename: String,
    pub matched_files: Vec<String>,
}

/// A result at the level of character strings.
pub open spec fn match_view(m: Matches) -> (Seq<char>, Seq<Seq<char>>) {
    (m.filename@, m.matched_files.deep_view())
}

impl SearchType {
    /// The distance tolerance this search kind carries.
    pub open spec fn spec_distance(self) -> int {
        match self {
            SearchType::SHA2 => 0,
            SearchType::MEAN(d) => d as int,
            SearchType::GRAD(d) => d as int,
            SearchType::DCT(d) => d as int,
        }
    }

    /// The distance tolerance this search kind carries.
    pub fn distance(&self) -> (r: u64)
        ensures
            r == self.spec_distance(),
    {
        match *self {
            SearchType::SHA2 => 0u64,
            SearchType::MEAN(d) => d as u64,
            SearchType::GRAD(d) => d as u64,
            SearchType::DCT(d) => d as u64,
        }
    }

    /// The record field this search kind reads.
    pub open spec fn spec_hash_of(self, fi: FileInfo) -> Option<Seq<char>> {
        match self {
            SearchType::SHA2 => opt_view(fi.sha2_hash),
            SearchType::MEAN(_) => opt_view(fi.a_hash),
            SearchType::GRAD(_) => opt_view(fi.d_hash),
            SearchType::DCT(_) => opt_view(fi.p_hash),
        }
    }

    /// Reads the record field this search kind compares.
    pub fn get_hash<'a>(&self, fi: &'a FileInfo) -> (r: &'a Option<String>)
        ensures
            opt_view(*r) == self.spec_hash_of(*fi),
    {
        match *self {
            SearchType::SHA2 => &fi.sha2_hash,
            SearchType::MEAN(_) => &fi.a_hash,
            SearchType::GRAD(_) => &fi.d_hash,
            SearchType::DCT(_) => &fi.p_hash,
        }
    }
}

/// The reverse index `m` extended with one record: a file named `f` whose
/// compared fingerprint is `h`. A record without the fingerprint is not
/// indexed; otherwise `f` joins the bucket of its exact hash value.
pub open spec fn rindex_add(
    m: Seq<(Seq<char>, Seq<Seq<char>>)>,
    h: Option<Seq<char>>,
    f: Seq<char>,
) -> Seq<(Seq<char>, Seq<Seq<char>>)> {
    match h {
        None => m,
        Some(h) => if seq_has_key(m, h) {
            let i = choose|i: int| 0 <= i < m.len() && m[i].0 == h;
            m.update(i, (h, m[i].1.push(f)))
        } else {
            m.push((h, seq![f]))
        },
    }
}

/// The reverse index of a record map: hash value to the files bearing it,
/// buckets keyed by first occurrence, files in map order.
pub open spec fn rindex(st: SearchType, infos: Seq<(Seq<char>, FileInfo)>) -> Seq<
    (Seq<char>, Seq<Seq<char>>),
>
    decreases infos.len(),
{
    if infos.len() == 0 {
        Seq::empty()
    } else {
        rindex_add(
            rindex(st, infos.drop_last()),
            st.spec_hash_of(infos.last().1),
            infos.last().1.filename@,
        )
    }
}

/// An exec reverse index, seen at the level of character strings.
pub open spec fn idx_view(s: Seq<(Seq<char>, Vec<String>)>) -> Seq<(Seq<char>, Seq<Seq<char>>)> {
    s.map_values(|p: (Seq<char>, Vec<String>)| (p.0, p.1.deep_view()))
}

impl SearchType {
    /// Builds the reverse index of `infos`: each record's compared
    /// fingerprint value mapped to the files bearing it exactly.
    pub fn build_reverse_index(&self, infos: &StrMap<FileInfo>) -> (r: StrMap<Vec<String>>)
        ensures
            keys_unique(r@),
            idx_view(r@) == rindex(*self, infos@),
    {
        broadcast use vstd::std_specs::vec::vec_clone_deep_view_proof;

        let mut r: StrMap<Vec<String>> = StrMap::new();
        let n = infos.len();
        proof {
            assert(infos@.take(0) =~= Seq::<(Seq<char>, FileInfo)>::empty());
            assert(idx_view(r@) =~= rindex(*self, infos@.take(0)));
        }
        for i in 0..n
            invariant
                n == infos@.len(),
                keys_unique(r@),
                idx_view(r@) == rindex(*self, infos@.take(i as int)),
        {
            let entry = infos.entry_at(i);
            let fi = &entry.1;
            let ghost pre = r@;
            match self.get_hash(fi) {
                None => {},
                Some(hs) => {
                    let mut bucket: Vec<String> = match r.get(hs) {
                        Some(b) => {
                            let cl = crate::utils::clone_string_vec(b);
                            proof {
                                assert(seq_get(pre, hs@) matches Some(src) && src@ == cl@);
                            }
                            cl
                        },
                        None => Vec::new(),
                    };
                    let ghost bucket0: Seq<String> = bucket@;
                    bucket.push(fi.filename.clone());
                    proof {
                        assert(bucket@ =~= bucket0.push(fi.filename));
                    }
                    r.insert(hs.clone(), bucket);
                    proof {
                        crate::strmap::lemma_seq_get_index(pre, hs@);
                        if seq_has_key(pre, hs@) {
                            let j = choose|j: int|
                                0 <= j < pre.len() && pre[j].0 == hs@ && r@ == pre.update(
                                    j,
                                    (hs@, bucket),
                                );
                            assert(pre[j].0 == hs@ && r@ == pre.update(j, (hs@, bucket)));
                            crate::strmap::lemma_seq_get_unique(pre, hs@, j);
                            assert(pre[j].1@ == bucket0);
                            assert(seq_has_key(idx_view(pre), hs@)) by {
                                assert(idx_view(pre)[j].0 == hs@);
                            }
                            let k = choose|k: int|
                                0 <= k < idx_view(pre).len() && idx_view(pre)[k].0 == hs@;
                            assert(k == j) by {
                                assert(idx_view(pre)[k].0 == pre[k].0);
                            }
                            assert(bucket.deep_view() =~= idx_view(pre)[j].1.push(fi.filename@));
                            assert(idx_view(r@) =~= idx_view(pre).update(
                                j,
                                (hs@, bucket.deep_view()),
                            ));
                            assert(rindex_add(idx_view(pre), Some(hs@), fi.filename@)
                                == idx_view(pre).update(
                                k,
                                (hs@, idx_view(pre)[k].1.push(fi.filename@)),
                            ));
                            assert(idx_view(r@) == rindex_add(
                                idx_view(pre),
                                Some(hs@),
                                fi.filename@,
                            ));
                        } else {
                            assert(!seq_has_key(idx_view(pre), hs@)) by {
                                if seq_has_key(idx_view(pre), hs@) {
                                    let k = choose|k: int|
                                        0 <= k < idx_view(pre).len() && idx_view(pre)[k].0 == hs@;
                                    assert(pre[k].0 == hs@);
                                }
                            }
                            assert(bucket.deep_view() =~= seq![fi.filename@]);
                            assert(idx_view(r@) =~= rindex_add(
                                idx_view(pre),
                                Some(hs@),
                                fi.filename@,
                            ));
                        }
                    }
                },
            }
            proof {
                assert(infos@.take(i + 1).drop_last() =~= infos@.take(i as int));
                assert(infos@.take(i + 1).last() == infos@[i as int]);
            }
        }
        proof {
            assert(infos@.take(n as int) =~= infos@);
        }
        r
    }
}

/// The files of `infos` whose record bears exactly the fingerprint `h`, in
/// map order.
pub open spec fn files_with_hash(
    st: SearchType,
    infos: Seq<(Seq<char>, FileInfo)>,
    h: Seq<char>,
) -> Seq<Seq<char>> {
    infos.filter(|p: (Seq<char>, FileInfo)| st.spec_hash_of(p.1) == Some(h)).map_values(
        |p: (Seq<char>, FileInfo)| p.1.filename@,
    )
}

/// What the reverse index means: its keys are unique, and looking up a
/// fingerprint finds exactly the files whose record bears it — every value
/// borne by some record is present, and no other.
pub proof fn lemma_rindex_characterization(st: SearchType, infos: Seq<(Seq<char>, FileInfo)>)
    ensures
        keys_unique(rindex(st, infos)),
        forall|h: Seq<char>|
            match #[trigger] seq_get(rindex(st, infos), h) {
                Some(b) => b == files_with_hash(st, infos, h),
                None => files_with_hash(st, infos, h).len() == 0,
            },
    decreases infos.len(),
{
    reveal_with_fuel(Seq::filter, 2);
    let pred = |h: Seq<char>| (|p: (Seq<char>, FileInfo)| st.spec_hash_of(p.1) == Some(h));
    if infos.len() == 0 {
        assert forall|h: Seq<char>|
            match #[trigger] seq_get(rindex(st, infos), h) {
                Some(b) => b == files_with_hash(st, infos, h),
                None => files_with_hash(st, infos, h).len() == 0,
            } by {
            assert(infos.filter(pred(h)) =~= Seq::<(Seq<char>, FileInfo)>::empty());
        }
    } else {
        lemma_rindex_characterization(st, infos.drop_last());
        let prev = infos.drop_last();
        let m0 = rindex(st, prev);
        let last = infos.last();
        let hl = st.spec_hash_of(last.1);
        let fl = last.1.filename@;
        assert(rindex(st, infos) == rindex_add(m0, hl, fl));
        match hl {
            None => {
                assert forall|h: Seq<char>|
                    match #[trigger] seq_get(rindex(st, infos), h) {
                        Some(b) => b == files_with_hash(st, infos, h),
                        None => files_with_hash(st, infos, h).len() == 0,
                    } by {
                    assert(!pred(h)(last));
                    assert(infos.filter(pred(h)) == prev.filter(pred(h)));
                }
            },
            Some(hv) => {
                if seq_has_key(m0, hv) {
                    let i = choose|i: int| 0 <= i < m0.len() && m0[i].0 == hv;
                    assert forall|j: int| 0 <= j < i implies m0[j].0 != m0[i].0 by {}
                    let nb = m0[i].1.push(fl);
                    assert(rindex(st, infos) == m0.update(i, (hv, nb)));
                    crate::strmap::lemma_seq_get_update(m0, i, nb);
                    crate::strmap::lemma_seq_get_unique(m0, hv, i);
                    assert(keys_unique(rindex(st, infos))) by {
                        assert forall|x: int, y: int|
                            0 <= x < y < rindex(st, infos).len() implies rindex(st, infos)[x].0
                            != rindex(st, infos)[y].0 by {
                            assert(rindex(st, infos)[x].0 == m0[x].0 && rindex(st, infos)[y].0
                                == m0[y].0);
                        }
                    }
                    assert forall|h: Seq<char>|
                        match #[trigger] seq_get(rindex(st, infos), h) {
                            Some(b) => b == files_with_hash(st, infos, h),
                            None => files_with_hash(st, infos, h).len() == 0,
                        } by {
                        if h == hv {
                            assert(pred(h)(last));
                            assert(infos.filter(pred(h)) == prev.filter(pred(h)).push(last));
                            assert(seq_get(rindex(st, infos), h) == Some(nb));
                            assert(m0[i].1 == files_with_hash(st, prev, hv));
                            assert(files_with_hash(st, infos, h) =~= files_with_hash(
                                st,
                                prev,
                                h,
                            ).push(fl));
                        } else {
                            assert(!pred(h)(last));
                            assert(infos.filter(pred(h)) == prev.filter(pred(h)));
                            assert(seq_get(rindex(st, infos), h) == seq_get(m0, h));
                        }
                    }
                } else {
                    crate::strmap::lemma_seq_get_push(m0, hv, seq![fl]);
                    assert(rindex(st, infos) == m0.push((hv, seq![fl])));
                    assert(keys_unique(rindex(st, infos))) by {
                        assert forall|x: int, y: int|
                            0 <= x < y < rindex(st, infos).len() implies rindex(st, infos)[x].0
                            != rindex(st, infos)[y].0 by {
                            if y < m0.len() {
                                assert(rindex(st, infos)[x].0 == m0[x].0 && rindex(
                                    st,
                                    infos,
                                )[y].0 == m0[y].0);
                            } else {
                                assert(rindex(st, infos)[x].0 == m0[x].0 && rindex(
                                    st,
                                    infos,
                                )[y].0 == hv);
                            }
                        }
                    }
                    assert forall|h: Seq<char>|
                        match #[trigger] seq_get(rindex(st, infos), h) {
                            Some(b) => b == files_with_hash(st, infos, h),
                            None => files_with_hash(st, infos, h).len() == 0,
                        } by {
                        if h == hv {
                            assert(pred(h)(last));
                            assert(infos.filter(pred(h)) == prev.filter(pred(h)).push(last));
                            assert(seq_get(rindex(st, infos), h) == Some(seq![fl]));
                            assert(prev.filter(pred(h)).len() == 0) by {
                                crate::strmap::lemma_seq_get_index(m0, h);
                                assert(seq_get(m0, h) is None);
                            }
                            assert(prev.filter(pred(h)) =~= Seq::<(Seq<char>, FileInfo)>::empty());
                            assert(files_with_hash(st, infos, h) =~= seq![fl]);
                        } else {
                            assert(!pred(h)(last));
                            assert(infos.filter(pred(h)) == prev.filter(pred(h)));
                            assert(seq_get(rindex(st, infos), h) == seq_get(m0, h));
                        }
                    }
                }
            },
        }
    }
}

/// The compared fingerprint of file `f`: from its record in `infos`, where
/// it has one and the record carries the field.
pub open spec fn file_hash(
    st: SearchType,
    infos: Seq<(Seq<char>, FileInfo)>,
    f: Seq<char>,
) -> Option<Seq<char>> {
    match seq_get(infos, f) {
        Some(fi) => st.spec_hash_of(fi),
        None => None,
    }
}

/// Looking a key up in an index's string-level view finds the string-level
/// view of what the exec lookup finds.
proof fn lemma_seq_get_idx_view(s: Seq<(Seq<char>, Vec<String>)>, h: Seq<char>)
    ensures
        match seq_get(s, h) {
            Some(v) => seq_get(idx_view(s), h) == Some(v.deep_view()),
            None => seq_get(idx_view(s), h) is None,
        },
    decreases s.len(),
{
    if s.len() > 0 {
        lemma_seq_get_idx_view(s.drop_first(), h);
        assert(idx_view(s).drop_first() =~= idx_view(s.drop_first()));
        assert(idx_view(s)[0].0 == s[0].0 && idx_view(s)[0].1 == s[0].1.deep_view());
    }
}

/// The members of a matched list other than the query path itself: a
/// result names the query once, in its own field, and lists only the other
/// files found beside it.
pub open spec fn others_of(b: Seq<Seq<char>>, f: Seq<char>) -> Seq<Seq<char>> {
    b.filter(|p: Seq<char>| p != f)
}

/// A matched list excludes the query: a path is among the others exactly
/// when the source list holds it and it is not the query's own.
pub proof fn lemma_others_of_membership(b: Seq<Seq<char>>, f: Seq<char>)
    ensures
        forall|p: Seq<char>| #[trigger] others_of(b, f).contains(p) <==> b.contains(p) && p != f,
    decreases b.len(),
{
    reveal_with_fuel(Seq::filter, 2);
    let pred = |p: Seq<char>| p != f;
    if b.len() == 0 {
        assert(forall|p: Seq<char>| !(#[trigger] others_of(b, f).contains(p)));
        assert(forall|p: Seq<char>| !(#[trigger] b.contains(p)));
    } else {
        lemma_others_of_membership(b.drop_last(), f);
        let prev = b.drop_last();
        let last = b.last();
        assert(others_of(b, f) == if pred(last) {
            others_of(prev, f).push(last)
        } else {
            others_of(prev, f)
        });
        assert forall|p: Seq<char>| #[trigger] others_of(b, f).contains(p) implies b.contains(p)
            && p != f by {
            let x = choose|x: int| 0 <= x < others_of(b, f).len() && others_of(b, f)[x] == p;
            if x < others_of(prev, f).len() {
                assert(others_of(prev, f).contains(p));
                let y = choose|y: int| 0 <= y < prev.len() && prev[y] == p;
                assert(b[y] == p);
            } else {
                assert(p == last && pred(last));
                assert(b[b.len() - 1] == p);
            }
        }
        assert forall|p: Seq<char>| b.contains(p) && p != f implies #[trigger] others_of(
            b,
            f,
        ).contains(p) by {
            let y = choose|y: int| 0 <= y < b.len() && b[y] == p;
            if y < prev.len() {
                assert(prev[y] == p);
                assert(prev.contains(p));
                assert(others_of(prev, f).contains(p));
                let x = choose|x: int|
                    0 <= x < others_of(prev, f).len() && others_of(prev, f)[x] == p;
                assert(others_of(b, f)[x] == p);
            } else {
                assert(last == p && pred(last));
                assert(others_of(b, f).last() == p);
            }
        }
    }
}

/// Copies the paths of `v` other than the query path `f`, in order.
fn paths_excluding(v: &Vec<String>, f: &String) -> (r: Vec<String>)
    ensures
        r.deep_view() == others_of(v.deep_view(), f@),
{
    let mut out: Vec<String> = Vec::new();
    let n = v.len();
    proof {
        reveal_with_fuel(Seq::filter, 2);
        assert(v.deep_view().take(0) =~= Seq::<Seq<char>>::empty());
        assert(out.deep_view() =~= others_of(v.deep_view().take(0), f@));
    }
    for i in 0..n
        invariant
            n == v@.len(),
            out.deep_view() == others_of(v.deep_view().take(i as int), f@),
    {
        let ghost pre = out.deep_view();
        if !(v[i] == *f) {
            out.push(v[i].clone());
        }
        proof {
            reveal_with_fuel(Seq::filter, 2);
            let dv = v.deep_view();
            assert(dv.take(i + 1).drop_last() =~= dv.take(i as int));
            assert(dv.take(i + 1).last() == dv[i as int]);
            assert(dv[i as int] == v@[i as int]@);
            if v@[i as int]@ == f@ {
                assert(out.deep_view() =~= pre);
            } else {
                assert(out.deep_view() =~= pre.push(dv[i as int]));
            }
        }
    }
    proof {
        assert(v.deep_view().take(n as int) =~= v.deep_view());
    }
    out
}

/// What exact search (tolerance zero) emits: one result per input file, in
/// input order, for each file whose fingerprint's bucket holds more than
/// one file; the result lists the bucket's other members.
pub open spec fn exact_out(
    st: SearchType,
    files: Seq<Seq<char>>,
    infos: Seq<(Seq<char>, FileInfo)>,
    idx: Seq<(Seq<char>, Seq<Seq<char>>)>,
) -> Seq<(Seq<char>, Seq<Seq<char>>)>
    decreases files.len(),
{
    if files.len() == 0 {
        Seq::empty()
    } else {
        let rest = exact_out(st, files.drop_last(), infos, idx);
        let f = files.last();
        match file_hash(st, infos, f) {
            Some(h) => match seq_get(idx, h) {
                Some(b) => if b.len() > 1 {
                    rest.push((f, others_of(b, f)))
                } else {
                    rest
                },
                None => rest,
            },
            None => rest,
        }
    }
}

/// The files within tolerance `d` of fingerprint `h`: the buckets of every
/// indexed hash value whose distance from `h` is defined and at most `d`,
/// concatenated in index order.
pub open spec fn near_list(
    h: Seq<char>,
    d: int,
    idx: Seq<(Seq<char>, Seq<Seq<char>>)>,
) -> Seq<Seq<char>>
    decreases idx.len(),
{
    if idx.len() == 0 {
        Seq::empty()
    } else {
        near_list(h, d, idx.drop_last()) + (
        match crate::base64::spec_hash_distance(h, idx.last().0) {
            Some(dd) => if dd <= d {
                idx.last().1
            } else {
                Seq::empty()
            },
            None => Seq::empty(),
        })
    }
}

/// What near search (tolerance `d > 0`) emits: one result per input file,
/// in input order, for each file whose within-tolerance list holds some
/// file other than the query itself; the result is that list, the query
/// excluded.
pub open spec fn near_out(
    st: SearchType,
    d: int,
    files: Seq<Seq<char>>,
    infos: Seq<(Seq<char>, FileInfo)>,
    idx: Seq<(Seq<char>, Seq<Seq<char>>)>,
) -> Seq<(Seq<char>, Seq<Seq<char>>)>
    decreases files.len(),
{
    if files.len() == 0 {
        Seq::empty()
    } else {
        let rest = near_out(st, d, files.drop_last(), infos, idx);
        let f = files.last();
        match file_hash(st, infos, f) {
            Some(h) => if others_of(near_list(h, d, idx), f).len() > 0 {
                rest.push((f, others_of(near_list(h, d, idx), f)))
            } else {
                rest
            },
            None => rest,
        }
    }
}

/// Fingerprint `k` lies within distance `d` of fingerprint `h`.
pub open spec fn within(h: Seq<char>, d: int, k: Seq<char>) -> bool {
    match crate::base64::spec_hash_distance(h, k) {
        Some(dd) => dd <= d,
        None => false,
    }
}

/// The record's compared fingerprint lies within distance `d` of `h`.
pub open spec fn record_within(st: SearchType, fi: FileInfo, h: Seq<char>, d: int) -> bool {
    match st.spec_hash_of(fi) {
        Some(h2) => within(h, d, h2),
        None => false,
    }
}

/// A file is in a within-tolerance list exactly when some index entry
/// within the tolerance holds it.
proof fn lemma_near_list_entries(h: Seq<char>, d: int, idx: Seq<(Seq<char>, Seq<Seq<char>>)>)
    ensures
        forall|p: Seq<char>|
            #[trigger] near_list(h, d, idx).contains(p) <==> exists|j: int|
                0 <= j < idx.len() && within(h, d, (#[trigger] idx[j]).0) && idx[j].1.contains(p),
    decreases idx.len(),
{
    if idx.len() > 0 {
        lemma_near_list_entries(h, d, idx.drop_last());
        let prev = idx.drop_last();
        let seg: Seq<Seq<char>> = if within(h, d, idx.last().0) {
            idx.last().1
        } else {
            Seq::empty()
        };
        assert(near_list(h, d, idx) == near_list(h, d, prev) + seg);
        assert forall|p: Seq<char>| #[trigger]
            near_list(h, d, idx).contains(p) implies exists|j: int|
            0 <= j < idx.len() && within(h, d, (#[trigger] idx[j]).0) && idx[j].1.contains(p) by {
            let x = choose|x: int| 0 <= x < near_list(h, d, idx).len() && near_list(h, d, idx)[x]
                == p;
            if x < near_list(h, d, prev).len() {
                assert(near_list(h, d, prev)[x] == p);
                assert(near_list(h, d, prev).contains(p));
                let j = choose|j: int|
                    0 <= j < prev.len() && within(h, d, (#[trigger] prev[j]).0)
                        && prev[j].1.contains(p);
                assert(idx[j] == prev[j]);
                assert(within(h, d, idx[j].0) && idx[j].1.contains(p));
            } else {
                assert(seg[x - near_list(h, d, prev).len()] == p);
                assert(within(h, d, idx[idx.len() - 1].0) && idx[idx.len() - 1].1.contains(p));
            }
        }
        assert forall|p: Seq<char>|
            (exists|j: int|
                0 <= j < idx.len() && within(h, d, (#[trigger] idx[j]).0) && idx[j].1.contains(
                    p,
                )) implies #[trigger] near_list(h, d, idx).contains(p) by {
            let j = choose|j: int|
                0 <= j < idx.len() && within(h, d, (#[trigger] idx[j]).0) && idx[j].1.contains(p);
            if j < prev.len() {
                assert(prev[j] == idx[j]);
                assert(near_list(h, d, prev).contains(p));
                let x = choose|x: int|
                    0 <= x < near_list(h, d, prev).len() && near_list(h, d, prev)[x] == p;
                assert(near_list(h, d, idx)[x] == p);
            } else {
                let x = choose|x: int| 0 <= x < seg.len() && seg[x] == p;
                assert(near_list(h, d, idx)[near_list(h, d, prev).len() + x] == p);
            }
        }
    }
}

/// Exact-search membership law: a file is among those bearing fingerprint
/// `k` exactly when some record bears `k` under that file's name.
pub proof fn lemma_files_with_hash_membership(
    st: SearchType,
    infos: Seq<(Seq<char>, FileInfo)>,
    k: Seq<char>,
)
    ensures
        forall|p: Seq<char>|
            #[trigger] files_with_hash(st, infos, k).contains(p) <==> exists|i: int|
                0 <= i < infos.len() && (#[trigger] infos[i]).1.filename@ == p && st.spec_hash_of(
                    infos[i].1,
                ) == Some(k),
    decreases infos.len(),
{
    reveal_with_fuel(Seq::filter, 2);
    let pred = |p: (Seq<char>, FileInfo)| st.spec_hash_of(p.1) == Some(k);
    if infos.len() == 0 {
        assert(infos.filter(pred) =~= Seq::<(Seq<char>, FileInfo)>::empty());
        assert(forall|p: Seq<char>| !(#[trigger] files_with_hash(st, infos, k).contains(p)));
    } else {
        lemma_files_with_hash_membership(st, infos.drop_last(), k);
        let prev = infos.drop_last();
        let last = infos.last();
        assert(infos.filter(pred) == if pred(last) {
            prev.filter(pred).push(last)
        } else {
            prev.filter(pred)
        });
        let fw = files_with_hash(st, infos, k);
        let fwp = files_with_hash(st, prev, k);
        if pred(last) {
            assert(fw =~= fwp.push(last.1.filename@));
        } else {
            assert(fw =~= fwp);
        }
        assert forall|p: Seq<char>| #[trigger] fw.contains(p) implies exists|i: int|
            0 <= i < infos.len() && (#[trigger] infos[i]).1.filename@ == p && st.spec_hash_of(
                infos[i].1,
            ) == Some(k) by {
            let x = choose|x: int| 0 <= x < fw.len() && fw[x] == p;
            if x < fwp.len() {
                assert(fwp.contains(p));
                let i = choose|i: int|
                    0 <= i < prev.len() && (#[trigger] prev[i]).1.filename@ == p
                        && st.spec_hash_of(prev[i].1) == Some(k);
                assert(infos[i] == prev[i]);
            } else {
                assert(pred(last) && p == last.1.filename@);
                assert(infos[infos.len() - 1] == last);
            }
        }
        assert forall|p: Seq<char>|
            (exists|i: int|
                0 <= i < infos.len() && (#[trigger] infos[i]).1.filename@ == p && st.spec_hash_of(
                    infos[i].1,
                ) == Some(k)) implies #[trigger] fw.contains(p) by {
            let i = choose|i: int|
                0 <= i < infos.len() && (#[trigger] infos[i]).1.filename@ == p && st.spec_hash_of(
                    infos[i].1,
                ) == Some(k);
            if i < prev.len() {
                assert(prev[i] == infos[i]);
                assert(fwp.contains(p));
                let x = choose|x: int| 0 <= x < fwp.len() && fwp[x] == p;
                assert(fw[x] == p);
            } else {
                assert(infos[i] == last);
                assert(fw.last() == p);
            }
        }
    }
}

/// Approximate-search membership law: a file appears in the
/// within-tolerance list for fingerprint `h` exactly when some record bears
/// a fingerprint within the tolerance of `h` under that file's name.
pub proof fn lemma_near_search_membership(
    st: SearchType,
    infos: Seq<(Seq<char>, FileInfo)>,
    h: Seq<char>,
    d: int,
)
    ensures
        forall|p: Seq<char>|
            #[trigger] near_list(h, d, rindex(st, infos)).contains(p) <==> exists|i: int|
                0 <= i < infos.len() && (#[trigger] infos[i]).1.filename@ == p && record_within(
                    st,
                    infos[i].1,
                    h,
                    d,
                ),
{
    let idx = rindex(st, infos);
    lemma_rindex_characterization(st, infos);
    lemma_near_list_entries(h, d, idx);
    assert forall|p: Seq<char>| #[trigger] near_list(h, d, idx).contains(p) implies exists|i: int|
        0 <= i < infos.len() && (#[trigger] infos[i]).1.filename@ == p && record_within(
            st,
            infos[i].1,
            h,
            d,
        ) by {
        let j = choose|j: int|
            0 <= j < idx.len() && within(h, d, (#[trigger] idx[j]).0) && idx[j].1.contains(p);
        crate::strmap::lemma_seq_get_unique(idx, idx[j].0, j);
        assert(idx[j].1 == files_with_hash(st, infos, idx[j].0));
        lemma_files_with_hash_membership(st, infos, idx[j].0);
        let i = choose|i: int|
            0 <= i < infos.len() && (#[trigger] infos[i]).1.filename@ == p && st.spec_hash_of(
                infos[i].1,
            ) == Some(idx[j].0);
        assert(record_within(st, infos[i].1, h, d));
    }
    assert forall|p: Seq<char>|
        (exists|i: int|
            0 <= i < infos.len() && (#[trigger] infos[i]).1.filename@ == p && record_within(
                st,
                infos[i].1,
                h,
                d,
            )) implies #[trigger] near_list(h, d, idx).contains(p) by {
        let i = choose|i: int|
            0 <= i < infos.len() && (#[trigger] infos[i]).1.filename@ == p && record_within(
                st,
                infos[i].1,
                h,
                d,
            );
        let h2 = st.spec_hash_of(infos[i].1)->0;
        lemma_files_with_hash_membership(st, infos, h2);
        assert(files_with_hash(st, infos, h2).contains(p));
        assert(seq_get(idx, h2) is Some) by {
            if seq_get(idx, h2) is None {
                assert(files_with_hash(st, infos, h2).len() == 0);
            }
        }
        crate::strmap::lemma_seq_get_index(idx, h2);
        let j = choose|j: int| 0 <= j < idx.len() && idx[j].0 == h2;
        crate::strmap::lemma_seq_get_unique(idx, h2, j);
        assert(idx[j].1 == files_with_hash(st, infos, h2));
        assert(within(h, d, idx[j].0) && idx[j].1.contains(p));
    }
}

impl SearchType {
    /// Exact duplicate search: emits, for each input file in order, the
    /// other files sharing its fingerprint exactly, where its bucket has
    /// company.
    pub fn find_exact_distance(
        &self,
        files: &Vec<String>,
        index: &StrMap<Vec<String>>,
        fileinfos: &StrMap<FileInfo>,
    ) -> (r: Vec<Matches>)
        ensures
            r@.map_values(|m: Matches| match_view(m)) == exact_out(
                *self,
                files.deep_view(),
                fileinfos@,
                idx_view(index@),
            ),
    {
        let mut out: Vec<Matches> = Vec::new();
        let n = files.len();
        proof {
            assert(files.deep_view().take(0) =~= Seq::<Seq<char>>::empty());
            assert(out@.map_values(|m: Matches| match_view(m)) =~= exact_out(
                *self,
                files.deep_view().take(0),
                fileinfos@,
                idx_view(index@),
            ));
        }
        for i in 0..n
            invariant
                n == files@.len(),
                out@.map_values(|m: Matches| match_view(m)) == exact_out(
                    *self,
                    files.deep_view().take(i as int),
                    fileinfos@,
                    idx_view(index@),
                ),
        {
            let ghost out0 = out@;
            let file = &files[i];
            match fileinfos.get(file) {
                Some(fi) => match self.get_hash(fi) {
                    Some(h) => {
                        proof {
                            lemma_seq_get_idx_view(index@, h@);
                        }
                        match index.get(h) {
                            Some(bucket) => {
                                if bucket.len() > 1 {
                                    let matched = paths_excluding(bucket, file);
                                    out.push(
                                        Matches { filename: file.clone(), matched_files: matched },
                                    );
                                }
                            },
                            None => {},
                        }
                    },
                    None => {},
                },
                None => {},
            }
            proof {
                let fs = files.deep_view();
                assert(fs.take(i + 1).drop_last() =~= fs.take(i as int));
                assert(fs.take(i + 1).last() == fs[i as int]);
                assert(fs[i as int] == files@[i as int]@);
                if out@.len() > out0.len() {
                    assert(out@.map_values(|m: Matches| match_view(m)) =~= out0.map_values(
                        |m: Matches| match_view(m),
                    ).push(match_view(out@.last())));
                }
            }
        }
        proof {
            assert(files.deep_view().take(n as int) =~= files.deep_view());
        }
        out
    }

    /// Near-duplicate search: emits, for each input file in order, every
    /// other indexed file whose fingerprint lies within the tolerance of
    /// its own, where at least one such file exists.
    #[verifier::rlimit(60)]
    pub fn find_close_matches(
        &self,
        distance: u64,
        files: &Vec<String>,
        index: &StrMap<Vec<String>>,
        fileinfos: &StrMap<FileInfo>,
    ) -> (r: Vec<Matches>)
        ensures
            r@.map_values(|m: Matches| match_view(m)) == near_out(
                *self,
                distance as int,
                files.deep_view(),
                fileinfos@,
                idx_view(index@),
            ),
    {
        let ghost idxv = idx_view(index@);
        let ghost d = distance as int;
        let mut out: Vec<Matches> = Vec::new();
        let n = files.len();
        proof {
            assert(files.deep_view().take(0) =~= Seq::<Seq<char>>::empty());
            assert(out@.map_values(|m: Matches| match_view(m)) =~= near_out(
                *self,
                d,
                files.deep_view().take(0),
                fileinfos@,
                idxv,
            ));
        }
        for i in 0..n
            invariant
                n == files@.len(),
                idxv == idx_view(index@),
                d == distance as int,
                out@.map_values(|m: Matches| match_view(m)) == near_out(
                    *self,
                    d,
                    files.deep_view().take(i as int),
                    fileinfos@,
                    idxv,
                ),
        {
            let ghost out0 = out@;
            let file = &files[i];
            match fileinfos.get(file) {
                Some(fi) => match self.get_hash(fi) {
                    Some(h) => {
                        let mut matched: Vec<String> = Vec::new();
                        let m = index.len();
                        proof {
                            assert(idxv.take(0) =~= Seq::<(Seq<char>, Seq<Seq<char>>)>::empty());
                            assert(matched.deep_view() =~= near_list(h@, d, idxv.take(0)));
                        }
                        for j in 0..m
                            invariant
                                m == index@.len(),
                                idxv == idx_view(index@),
                                d == distance as int,
                                matched.deep_view() == near_list(h@, d, idxv.take(j as int)),
                        {
                            let ghost matched0 = matched.deep_view();
                            let entry = index.entry_at(j);
                            match crate::base64::hash_distance(h, &entry.0) {
                                Some(dd) => if dd <= distance {
                                    let mut more = crate::utils::clone_string_vec(&entry.1);
                                    proof {
                                        assert(more.deep_view() =~= idxv[j as int].1);
                                    }
                                    matched.append(&mut more);
                                    proof {
                                        assert(matched.deep_view() =~= matched0 + idxv[
                                            j as int
                                        ].1);
                                    }
                                },
                                None => {},
                            }
                            proof {
                                assert(idxv.take(j + 1).drop_last() =~= idxv.take(j as int));
                                assert(idxv.take(j + 1).last() == idxv[j as int]);
                                assert(idxv[j as int].0 == index@[j as int].0);
                                if matched.deep_view().len() == matched0.len() {
                                    assert(matched.deep_view() =~= matched0 + Seq::<
                                        Seq<char>,
                                    >::empty());
                                }
                            }
                        }
                        proof {
                            assert(idxv.take(m as int) =~= idxv);
                        }
                        let others = paths_excluding(&matched, file);
                        if others.len() > 0 {
                            out.push(Matches { filename: file.clone(), matched_files: others });
                        }
                    },
                    None => {},
                },
                None => {},
            }
            proof {
                let fs = files.deep_view();
                assert(fs.take(i + 1).drop_last() =~= fs.take(i as int));
                assert(fs.take(i + 1).last() == fs[i as int]);
                assert(fs[i as int] == files@[i as int]@);
                if out@.len() > out0.len() {
                    assert(out@.map_values(|m2: Matches| match_view(m2)) =~= out0.map_values(
                        |m2: Matches| match_view(m2),
                    ).push(match_view(out@.last())));
                }
            }
        }
        proof {
            assert(files.deep_view().take(n as int) =~= files.deep_view());
        }
        out
    }

    /// Finds duplicate groups among `files` from the completed fingerprint
    /// map: exactly at tolerance zero, else within the Hamming-distance
    /// tolerance. Each result lists the files found beside its query, the
    /// query itself excluded; results come in input-file order.
    pub fn find_dups(&self, files: Vec<String>, fileinfos: StrMap<FileInfo>) -> (r: Vec<Matches>)
        ensures
            self.spec_distance() == 0 ==> r@.map_values(|m: Matches| match_view(m)) == exact_out(
                *self,
                files.deep_view(),
                fileinfos@,
                rindex(*self, fileinfos@),
            ),
            self.spec_distance() > 0 ==> r@.map_values(|m: Matches| match_view(m)) == near_out(
                *self,
                self.spec_distance(),
                files.deep_view(),
                fileinfos@,
                rindex(*self, fileinfos@),
            ),
    {
        let index = self.build_reverse_index(&fileinfos);
        let distance = self.distance();
        if distance == 0 {
            self.find_exact_distance(&files, &index, &fileinfos)
        } else {
            self.find_close_matches(distance, &files, &index, &fileinfos)
        }
    }

    /// The search the caller's flags name: a hash kind and a tolerance.
    /// The content kind takes no tolerance but zero.
    pub fn from_parts(kind: &str, distance: u8) -> (r: ItoolsResult<SearchType>)
        ensures
            kind@ == "mean"@ ==> r == Ok::<SearchType, ItoolsError>(SearchType::MEAN(distance)),
            kind@ == "grad"@ ==> r == Ok::<SearchType, ItoolsError>(SearchType::GRAD(distance)),
            kind@ == "dct"@ ==> r == Ok::<SearchType, ItoolsError>(SearchType::DCT(distance)),
            kind@ == "sha2"@ && distance == 0 ==> r == Ok::<SearchType, ItoolsError>(
                SearchType::SHA2,
            ),
            kind@ == "sha2"@ && distance != 0 ==> r matches Err(ItoolsError::UsageError(_)),
            kind@ != "mean"@ && kind@ != "grad"@ && kind@ != "dct"@ && kind@ != "sha2"@ ==> r
                matches Err(ItoolsError::UsageError(_)),
    {
        proof {
            reveal_strlit("mean");
            reveal_strlit("grad");
            reveal_strlit("dct");
            reveal_strlit("sha2");
            assert("mean"@[0] == 'm' && "grad"@[0] == 'g' && "dct"@[0] == 'd' && "sha2"@[0]
                == 's');
            assert("mean"@ != "grad"@ && "mean"@ != "dct"@ && "mean"@ != "sha2"@ && "grad"@
                != "dct"@ && "grad"@ != "sha2"@ && "dct"@ != "sha2"@);
        }
        let k = kind.to_owned();
        if k == String::from_str("mean") {
            Ok(SearchType::MEAN(distance))
        } else if k == String::from_str("grad") {
            Ok(SearchType::GRAD(distance))
        } else if k == String::from_str("dct") {
            Ok(SearchType::DCT(distance))
        } else if k == String::from_str("sha2") {
            if distance != 0 {
                Err(ItoolsError::UsageError("the content-hash kind searches exactly"))
            } else {
                Ok(SearchType::SHA2)
            }
        } else {
            Err(ItoolsError::UsageError("unknown hash kind"))
        }
    }
}

} // verus!
