use vstd::prelude::*;
use vstd::seq_lib::{to_multiset_build, to_multiset_insert};
use vstd::string::*;
use crate::item::{views, ClipboardItem, ItemView};
use crate::error::StoreError;
use crate::util::{decimal, decimal_digits};

verus! {

broadcast use vstd::seq_lib::group_seq_properties;

/// The record `v` holds `content` of kind `content_type`.
pub open spec fn same_pair(v: ItemView, content: Seq<char>, content_type: Seq<char>) -> bool {
    v.content == content && v.content_type == content_type
}

/// Some record of `s` has id `id`.
pub open spec fn has_id(s: Seq<ItemView>, id: Seq<char>) -> bool {
    exists|i: int| 0 <= i < s.len() && s[i].id == id
}

/// Some record of `s` holds `content` of kind `content_type`.
pub open spec fn has_pair(s: Seq<ItemView>, content: Seq<char>, content_type: Seq<char>) -> bool {
    exists|i: int| 0 <= i < s.len() && same_pair(s[i], content, content_type)
}

/// No two records share an id.
pub open spec fn ids_unique(s: Seq<ItemView>) -> bool {
    forall|i: int, j: int| 0 <= i < s.len() && 0 <= j < s.len() && i != j ==> s[i].id != s[j].id
}

/// No two records hold the same content of the same kind.
pub open spec fn pairs_unique(s: Seq<ItemView>) -> bool {
    forall|i: int, j: int|
        0 <= i < s.len() && 0 <= j < s.len() && i != j ==> !same_pair(
            s[i],
            s[j].content,
            s[j].content_type,
        )
}

/// `s` with the record at `i` given the timestamp `now`.
pub open spec fn touched(s: Seq<ItemView>, i: int, now: u64) -> Seq<ItemView> {
    s.update(i, ItemView { created_at: now, ..s[i] })
}

/// `s` with the favorite flag of the record at `i` flipped.
pub open spec fn flipped(s: Seq<ItemView>, i: int) -> Seq<ItemView> {
    s.update(i, ItemView { is_favorite: !s[i].is_favorite, ..s[i] })
}

/// `s` with the content of the record at `i` replaced.
pub open spec fn rewritten(s: Seq<ItemView>, i: int, content: Seq<char>) -> Seq<ItemView> {
    s.update(i, ItemView { content: content, ..s[i] })
}

/// The state after adding `content` of kind `content_type` at time `now` to
/// `old`, with `r` the record returned: the first record holding that
/// content gets the new timestamp; if none does, a new record with a fresh id,
/// not a favorite, is appended.
pub open spec fn add_post(
    old: Seq<ItemView>,
    content: Seq<char>,
    content_type: Seq<char>,
    now: u64,
    new: Seq<ItemView>,
    r: ItemView,
) -> bool {
    if has_pair(old, content, content_type) {
        exists|i: int|
            0 <= i < old.len() && same_pair(old[i], content, content_type) && (forall|k: int|
                0 <= k < i ==> !same_pair(old[k], content, content_type)) && new == touched(
                old,
                i,
                now,
            ) && r == new[i]
    } else {
        &&& !has_id(old, r.id)
        &&& r.content == content
        &&& r.content_type == content_type
        &&& r.created_at == now
        &&& !r.is_favorite
        &&& new == old.push(r)
    }
}

/// The state after flipping the favorite flag of record `id` in `old`.
pub open spec fn toggle_post(old: Seq<ItemView>, id: Seq<char>, new: Seq<ItemView>) -> bool {
    if has_id(old, id) {
        exists|i: int| 0 <= i < old.len() && old[i].id == id && new == flipped(old, i)
    } else {
        new == old
    }
}

/// Keeps favorites only.
pub open spec fn is_favorite(v: ItemView) -> bool {
    v.is_favorite
}

/// The records of `s` that are favorites, in order.
pub open spec fn favorites(s: Seq<ItemView>) -> Seq<ItemView> {
    s.filter(|v: ItemView| is_favorite(v))
}

/// The order key of a record: newer first and, when `favorites_first`,
/// every favorite before every other record.
pub open spec fn rank(v: ItemView, favorites_first: bool) -> int {
    (if favorites_first && v.is_favorite {
        0x1_0000_0000_0000_0000int
    } else {
        0int
    }) + v.created_at as int
}

/// No record of `s` ranks above an earlier one.
pub open spec fn ranked(s: Seq<ItemView>, favorites_first: bool) -> bool {
    forall|i: int, j: int|
        0 <= i < j < s.len() ==> rank(s[i], favorites_first) >= rank(s[j], favorites_first)
}

/// `q` occurs in `s` starting at position `i`.
pub open spec fn occurs_at(q: Seq<char>, s: Seq<char>, i: int) -> bool {
    0 <= i && i + q.len() <= s.len() && s.subrange(i, i + q.len()) == q
}

/// `q` occurs in `s` as a contiguous run.
pub open spec fn is_substring(q: Seq<char>, s: Seq<char>) -> bool {
    exists|i: int| #[trigger] occurs_at(q, s, i)
}

/// The lower-case form of `s`.
pub uninterp spec fn lower_of(s: Seq<char>) -> Seq<char>;

/// A record matches a search query when the lower-case form of the query
/// occurs in the lower-case form of the record's content.
pub open spec fn matches_query(v: ItemView, query: Seq<char>) -> bool {
    is_substring(lower_of(query), lower_of(v.content))
}

/// Relies on `str::to_lowercase`: the result depends on the characters alone,
/// and since each character lowers to one or more characters, the result is
/// empty exactly when the input is.
#[verifier::external_body]
fn lowercase_chars(s: &str) -> (r: Vec<char>)
    ensures
        r@ == lower_of(s@),
        r@.len() == 0 <==> s@.len() == 0,
{
    s.to_lowercase().chars().collect()
}

proof fn lemma_filter_keeps_unique(s: Seq<ItemView>, p: spec_fn(ItemView) -> bool)
    ensures
        forall|k: int| 0 <= k < s.filter(p).len() ==> s.contains(#[trigger] s.filter(p)[k]),
        ids_unique(s) ==> ids_unique(s.filter(p)),
        pairs_unique(s) ==> pairs_unique(s.filter(p)),
    decreases s.len(),
{
    reveal(Seq::filter);
    if s.len() > 0 {
        let init = s.drop_last();
        let last = s.last();
        let n = s.len() - 1;
        lemma_filter_keeps_unique(init, p);
        let f0 = init.filter(p);
        let f = s.filter(p);
        assert(f == if p(last) {
            f0.push(last)
        } else {
            f0
        });
        assert forall|k: int| 0 <= k < f.len() implies s.contains(#[trigger] f[k]) by {
            if k < f0.len() {
                assert(init.contains(f0[k]));
                let j = choose|j: int| 0 <= j < init.len() && init[j] == f0[k];
                assert(s[j] == f0[k]);
            } else {
                assert(s[n] == last);
            }
        }
        assert forall|k: int| 0 <= k < f0.len() implies exists|j: int|
            0 <= j < n && s[j] == #[trigger] f0[k] by {
            assert(init.contains(f0[k]));
            let j = choose|j: int| 0 <= j < init.len() && init[j] == f0[k];
            assert(s[j] == f0[k]);
        }
        if ids_unique(s) {
            assert(ids_unique(init));
            assert forall|a: int, b: int|
                0 <= a < f.len() && 0 <= b < f.len() && a != b implies f[a].id != f[b].id by {
                if a == f0.len() {
                    let j = choose|j: int| 0 <= j < n && s[j] == #[trigger] f0[b];
                    assert(s[n] == last);
                } else if b == f0.len() {
                    let j = choose|j: int| 0 <= j < n && s[j] == #[trigger] f0[a];
                    assert(s[n] == last);
                }
            }
        }
        if pairs_unique(s) {
            assert(pairs_unique(init));
            assert forall|a: int, b: int|
                0 <= a < f.len() && 0 <= b < f.len() && a != b implies !same_pair(
                f[a],
                f[b].content,
                f[b].content_type,
            ) by {
                if a == f0.len() {
                    let j = choose|j: int| 0 <= j < n && s[j] == #[trigger] f0[b];
                    assert(s[n] == last);
                } else if b == f0.len() {
                    let j = choose|j: int| 0 <= j < n && s[j] == #[trigger] f0[a];
                    assert(s[n] == last);
                }
            }
        }
    }
}

/// Whether `q` occurs in `hay` as a contiguous run.
pub fn contains_chars(hay: &Vec<char>, q: &Vec<char>) -> (r: bool)
    ensures
        r == is_substring(q@, hay@),
{
    if q.len() > hay.len() {
        assert forall|j: int| !occurs_at(q@, hay@, j) by {}
        return false;
    }
    let last: usize = hay.len() - q.len();
    assert(hay@.len() <= usize::MAX);
    let mut i: usize = 0;
    loop
        invariant
            0 <= i <= last,
            last + q@.len() == hay@.len(),
            hay@.len() <= usize::MAX,
            forall|j: int| 0 <= j < i ==> !occurs_at(q@, hay@, j),
        decreases last - i,
    {
        let mut k: usize = 0;
        let mut same = true;
        while k < q.len() && same
            invariant
                0 <= k <= q@.len(),
                i + q@.len() <= hay@.len(),
                hay@.len() <= usize::MAX,
                same ==> forall|t: int| 0 <= t < k ==> hay@[i + t] == q@[t],
                !same ==> exists|t: int| 0 <= t < q@.len() && hay@[i + t] != q@[t],
            decreases q@.len() - k + (if same { 1int } else { 0int }),
        {
            if hay[i + k] != q[k] {
                same = false;
            } else {
                k += 1;
            }
        }
        if same {
            assert(hay@.subrange(i as int, i + q@.len()) =~= q@);
            assert(occurs_at(q@, hay@, i as int));
            return true;
        }
        proof {
            let t = choose|t: int| 0 <= t < q@.len() && hay@[i + t] != q@[t];
            assert(hay@.subrange(i as int, i + q@.len())[t] != q@[t]);
        }
        if i == last {
            assert forall|j: int| !occurs_at(q@, hay@, j) by {}
            return false;
        }
        i += 1;
    }
}

/// Whether `a` ranks strictly below `b`.
fn ranks_below(a: &ClipboardItem, b: &ClipboardItem, favorites_first: bool) -> (r: bool)
    ensures
        r == (rank(a@, favorites_first) < rank(b@, favorites_first)),
{
    if favorites_first && a.is_favorite != b.is_favorite {
        b.is_favorite
    } else {
        a.created_at < b.created_at
    }
}

/// Copies of `items` in rank order, highest first; records of equal rank keep
/// their relative order.
fn sorted_by_rank(items: &Vec<ClipboardItem>, favorites_first: bool) -> (r: Vec<ClipboardItem>)
    ensures
        ranked(views(r@), favorites_first),
        views(r@).to_multiset() == views(items@).to_multiset(),
{
    let mut out: Vec<ClipboardItem> = Vec::new();
    let mut k: usize = 0;
    while k < items.len()
        invariant
            0 <= k <= items@.len(),
            ranked(views(out@), favorites_first),
            views(out@).to_multiset() == views(items@).take(k as int).to_multiset(),
        decreases items@.len() - k,
    {
        let x = items[k].copied();
        let mut p: usize = 0;
        while p < out.len() && !ranks_below(&out[p], &x, favorites_first)
            invariant
                0 <= p <= out@.len(),
                forall|j: int|
                    0 <= j < p ==> rank(views(out@)[j], favorites_first) >= rank(
                        x@,
                        favorites_first,
                    ),
            decreases out@.len() - p,
        {
            p += 1;
        }
        let ghost prev = views(out@);
        out.insert(p, x);
        proof {
            assert(views(out@) =~= prev.insert(p as int, x@));
            to_multiset_insert(prev, p as int, x@);
            assert(views(items@).take(k + 1) =~= views(items@).take(k as int).push(x@));
            to_multiset_build(views(items@).take(k as int), x@);
            assert forall|a: int, b: int|
                0 <= a < b < views(out@).len() implies rank(views(out@)[a], favorites_first)
                >= rank(views(out@)[b], favorites_first) by {
                if p < prev.len() {
                    assert(rank(prev[p as int], favorites_first) < rank(x@, favorites_first));
                }
                if a < p && b > p {
                    assert(views(out@)[b] == prev[b - 1]);
                } else if a > p {
                    assert(views(out@)[a] == prev[a - 1]);
                    assert(views(out@)[b] == prev[b - 1]);
                } else if a == p && b > p {
                    assert(views(out@)[b] == prev[b - 1]);
                    assert(rank(prev[b - 1], favorites_first) <= rank(prev[p as int], favorites_first));
                }
            }
        }
        k += 1;
    }
    assert(views(items@).take(k as int) =~= views(items@));
    out
}

/// The clipboard history: every record, in the order stored.
pub struct ClipboardHistory {
    items: Vec<ClipboardItem>,
}

impl View for ClipboardHistory {
    type V = Seq<ItemView>;

    closed spec fn view(&self) -> Seq<ItemView> {
        views(self.items@)
    }
}

impl ClipboardHistory {
    /// The history's invariant: ids are unique, and no two records hold the
    /// same content of the same kind. Adding, flipping favorites, deleting and
    /// clearing keep it; replacing a record's content keeps it unless another
    /// record of that kind already holds the new content.
    pub open spec fn well_formed(&self) -> bool {
        ids_unique(self@) && pairs_unique(self@)
    }

    /// An empty history.
    pub fn new() -> (r: ClipboardHistory)
        ensures
            r@ == Seq::<ItemView>::empty(),
            r.well_formed(),
    {
        let r = ClipboardHistory { items: Vec::new() };
        assert(r@ =~= Seq::<ItemView>::empty());
        r
    }

    /// The records, in the order stored.
    pub fn records(&self) -> (r: &Vec<ClipboardItem>)
        ensures
            views(r@) == self@,
    {
        &self.items
    }

    /// Index of the record with id `id`, if any.
    fn position_of_id(&self, id: &String) -> (r: Option<usize>)
        ensures
            r matches Some(i) ==> i < self@.len() && self@[i as int].id == id@,
            r is None ==> !has_id(self@, id@),
    {
        let mut i: usize = 0;
        while i < self.items.len()
            invariant
                0 <= i <= self.items@.len(),
                self@.len() == self.items@.len(),
                forall|k: int| 0 <= k < i ==> self@[k].id != id@,
            decreases self.items@.len() - i,
        {
            if self.items[i].id == *id {
                return Some(i);
            }
            i += 1;
        }
        None
    }

    /// Index of the first record holding `content` of kind `content_type`, if any.
    fn position_of_pair(&self, content: &String, content_type: &String) -> (r: Option<usize>)
        ensures
            r matches Some(i) ==> i < self@.len() && same_pair(
                self@[i as int],
                content@,
                content_type@,
            ) && forall|k: int| 0 <= k < i ==> !same_pair(self@[k], content@, content_type@),
            r is None ==> !has_pair(self@, content@, content_type@),
    {
        let mut i: usize = 0;
        while i < self.items.len()
            invariant
                0 <= i <= self.items@.len(),
                self@.len() == self.items@.len(),
                forall|k: int| 0 <= k < i ==> !same_pair(self@[k], content@, content_type@),
            decreases self.items@.len() - i,
        {
            if self.items[i].content == *content && self.items[i].content_type == *content_type {
                return Some(i);
            }
            i += 1;
        }
        None
    }

    /// An id of the form `clipboard-<now>` that no record has, with `+`
    /// appended as often as needed to make it so.
    fn fresh_id(&self, now: u64) -> (r: String)
        ensures
            !has_id(self@, r@),
    {
        let mut longest: usize = 0;
        let mut i: usize = 0;
        while i < self.items.len()
            invariant
                0 <= i <= self.items@.len(),
                self@.len() == self.items@.len(),
                forall|k: int| 0 <= k < i ==> self@[k].id.len() <= longest,
            decreases self.items@.len() - i,
        {
            if self.items[i].id.as_str().unicode_len() > longest {
                longest = self.items[i].id.as_str().unicode_len();
            }
            i += 1;
        }
        let mut id = String::from_str("clipboard-").concat(decimal(now).as_str());
        loop
            invariant
                forall|k: int| 0 <= k < self@.len() ==> self@[k].id.len() <= longest,
            decreases longest + 1 - id@.len(),
        {
            match self.position_of_id(&id) {
                None => return id,
                Some(_) => {
                    assert(id@.len() <= longest);
                    id = id.concat("+");
                    proof {
                        reveal_strlit("+");
                    }
                },
            }
        }
    }

    /// Records a capture of `content` of kind `content_type` at time `now`.
    ///
    /// If a record already holds that content it gets the new timestamp and is
    /// returned as stored, favorite flag included; otherwise a new record with a
    /// fresh id, not a favorite, is appended and returned.
    pub fn add_clipboard_item(&mut self, content: String, content_type: String, now: u64) -> (r:
        ClipboardItem)
        ensures
            add_post(old(self)@, content@, content_type@, now, final(self)@, r@),
            ids_unique(old(self)@) ==> ids_unique(final(self)@),
            pairs_unique(old(self)@) ==> pairs_unique(final(self)@),
    {
        match self.position_of_pair(&content, &content_type) {
            Some(i) => {
                let ghost before = self@;
                let mut item = self.items[i].copied();
                item.created_at = now;
                let r = item.copied();
                self.items.set(i, item);
                assert(self@ =~= touched(before, i as int, now));
                assert(r@ == self@[i as int]);
                assert(has_pair(before, content@, content_type@));
                assert(ids_unique(before) ==> ids_unique(self@));
                assert(pairs_unique(before) ==> pairs_unique(self@));
                r
            },
            None => {
                let id = self.fresh_id(now);
                let item = ClipboardItem {
                    id,
                    content,
                    content_type,
                    created_at: now,
                    is_favorite: false,
                };
                let r = item.copied();
                let ghost before = self@;
                self.items.push(item);
                assert(self@ =~= before.push(r@));
                assert(pairs_unique(before) ==> pairs_unique(self@));
                r
            },
        }
    }

    /// Replaces the content of record `id`, keeping its timestamp and
    /// favorite flag; fails with `NotFound`, changing nothing, if no record has
    /// that id.
    pub fn update_clipboard_item(&mut self, id: String, content: String) -> (r: Result<
        ClipboardItem,
        StoreError,
    >)
        ensures
            r is Ok <==> has_id(old(self)@, id@),
            r is Err ==> r == Err::<ClipboardItem, StoreError>(StoreError::NotFound) && final(self)@ == old(self)@,
            r matches Ok(item) ==> exists|i: int|
                0 <= i < old(self)@.len() && old(self)@[i].id == id@ && final(self)@ == rewritten(
                    old(self)@,
                    i,
                    content@,
                ) && item@ == final(self)@[i],
            ids_unique(old(self)@) ==> ids_unique(final(self)@),
            r matches Ok(item) && pairs_unique(old(self)@) && !has_pair(
                old(self)@,
                content@,
                item@.content_type,
            ) ==> pairs_unique(final(self)@),
    {
        match self.position_of_id(&id) {
            None => Err(StoreError::NotFound),
            Some(i) => {
                let ghost before = self@;
                let mut item = self.items[i].copied();
                item.content = content;
                let r = item.copied();
                self.items.set(i, item);
                assert(self@ =~= rewritten(before, i as int, content@));
                assert(self@[i as int] == r@);
                assert(before[i as int].id == id@);
                assert(ids_unique(before) ==> ids_unique(self@));
                assert(pairs_unique(before) && !has_pair(before, content@, r@.content_type)
                    ==> pairs_unique(self@)) by {
                    if pairs_unique(before) && !has_pair(before, content@, r@.content_type) {
                        assert forall|a: int, b: int|
                            0 <= a < self@.len() && 0 <= b < self@.len() && a != b implies !same_pair(
                            self@[a],
                            self@[b].content,
                            self@[b].content_type,
                        ) by {
                            if a == i {
                                assert(!same_pair(before[b], content@, r@.content_type));
                            } else if b == i {
                                assert(!same_pair(before[a], content@, r@.content_type));
                            }
                        }
                    }
                };
                Ok(r)
            },
        }
    }

    /// Flips the favorite flag of record `id` and returns the record; fails with
    /// `NotFound`, changing nothing, if no record has that id.
    pub fn toggle_favorite_clipboard_item(&mut self, id: String) -> (r: Result<
        ClipboardItem,
        StoreError,
    >)
        ensures
            toggle_post(old(self)@, id@, final(self)@),
            r is Ok <==> has_id(old(self)@, id@),
            r is Err ==> r == Err::<ClipboardItem, StoreError>(StoreError::NotFound),
            r matches Ok(item) ==> exists|i: int|
                0 <= i < old(self)@.len() && old(self)@[i].id == id@ && final(self)@ == flipped(
                    old(self)@,
                    i,
                ) && item@ == final(self)@[i],
            ids_unique(old(self)@) ==> ids_unique(final(self)@),
            pairs_unique(old(self)@) ==> pairs_unique(final(self)@),
    {
        match self.position_of_id(&id) {
            None => Err(StoreError::NotFound),
            Some(i) => {
                let ghost before = self@;
                let mut item = self.items[i].copied();
                item.is_favorite = !item.is_favorite;
                let r = item.copied();
                self.items.set(i, item);
                assert(self@ =~= flipped(before, i as int));
                assert(self@[i as int] == r@);
                assert forall|k: int| 0 <= k < self@.len() implies #[trigger] self@[k].content
                    == before[k].content && self@[k].content_type == before[k].content_type
                    && self@[k].id == before[k].id by {}
                assert(ids_unique(before) ==> ids_unique(self@));
                assert(pairs_unique(before) ==> pairs_unique(self@)) by {
                    if pairs_unique(before) {
                        assert forall|a: int, b: int|
                            0 <= a < self@.len() && 0 <= b < self@.len() && a != b implies !same_pair(
                            self@[a],
                            self@[b].content,
                            self@[b].content_type,
                        ) by {
                            assert(!same_pair(before[a], before[b].content, before[b].content_type));
                            assert(self@[a].content == before[a].content);
                            assert(self@[b].content == before[b].content);
                        }
                    }
                };
                Ok(r)
            },
        }
    }

    /// Removes record `id`; fails with `NotFound`, changing nothing, if no
    /// record has that id.
    pub fn delete_clipboard_item(&mut self, id: String) -> (r: Result<(), StoreError>)
        ensures
            r is Ok <==> has_id(old(self)@, id@),
            r is Err ==> r == Err::<(), StoreError>(StoreError::NotFound) && final(self)@ == old(self)@,
            r is Ok ==> exists|i: int|
                0 <= i < old(self)@.len() && old(self)@[i].id == id@ && final(self)@ == old(self)@.remove(i),
            ids_unique(old(self)@) ==> ids_unique(final(self)@) && !has_id(final(self)@, id@),
            pairs_unique(old(self)@) ==> pairs_unique(final(self)@),
    {
        match self.position_of_id(&id) {
            None => Err(StoreError::NotFound),
            Some(i) => {
                let ghost before = self@;
                self.items.remove(i);
                assert(self@ =~= before.remove(i as int));
                assert(ids_unique(before) ==> ids_unique(self@));
                assert(pairs_unique(before) ==> pairs_unique(self@)) by {
                    if pairs_unique(before) {
                        assert forall|a: int, b: int|
                            0 <= a < self@.len() && 0 <= b < self@.len() && a != b implies !same_pair(
                            self@[a],
                            self@[b].content,
                            self@[b].content_type,
                        ) by {
                            let a2 = if a < i {
                                a
                            } else {
                                a + 1
                            };
                            let b2 = if b < i {
                                b
                            } else {
                                b + 1
                            };
                            assert(self@[a] == before[a2]);
                            assert(self@[b] == before[b2]);
                        }
                    }
                };
                assert(ids_unique(before) ==> !has_id(self@, id@)) by {
                    if ids_unique(before) && has_id(self@, id@) {
                        let k = choose|k: int| 0 <= k < self@.len() && self@[k].id == id@;
                        if k < i {
                            assert(before[k].id == id@);
                        } else {
                            assert(before[k + 1].id == id@);
                        }
                    }
                };
                Ok(())
            },
        }
    }

    /// Removes every record that is not a favorite; favorites stay, in order.
    pub fn clear_clipboard_history(&mut self)
        ensures
            final(self)@ == favorites(old(self)@),
            ids_unique(old(self)@) ==> ids_unique(final(self)@),
            pairs_unique(old(self)@) ==> pairs_unique(final(self)@),
    {
        let ghost before = self@;
        let mut kept: Vec<ClipboardItem> = Vec::new();
        let mut i: usize = 0;
        while i < self.items.len()
            invariant
                0 <= i <= self.items@.len(),
                before == views(self.items@),
                views(kept@) == before.take(i as int).filter(|v: ItemView| is_favorite(v)),
            decreases self.items@.len() - i,
        {
            assert(before.take(i + 1) =~= before.take(i as int).push(before[i as int]));
            let ghost kept_before = kept@;
            proof {
                reveal(Seq::filter);
            }
            assert(before.take(i + 1).drop_last() =~= before.take(i as int));
            assert(before.take(i + 1).last() == before[i as int]);
            if self.items[i].is_favorite {
                kept.push(self.items[i].copied());
                assert(views(kept@) =~= views(kept_before).push(before[i as int]));
            }
            assert(views(kept@) =~= before.take(i + 1).filter(|v: ItemView| is_favorite(v)));
            i += 1;
        }
        assert(before.take(i as int) =~= before);
        self.items = kept;
        proof {
            lemma_filter_keeps_unique(before, |v: ItemView| is_favorite(v));
        }
    }

    /// Every record, newest first.
    pub fn get_all_clipboard_items(&self) -> (r: Vec<ClipboardItem>)
        ensures
            ranked(views(r@), false),
            views(r@).to_multiset() == self@.to_multiset(),
    {
        sorted_by_rank(&self.items, false)
    }

    /// The records whose content contains `query`, ignoring case (every record
    /// for an empty query), favorites first and newest first within each group.
    pub fn search_clipboard_items(&self, query: &str) -> (r: Vec<ClipboardItem>)
        ensures
            ranked(views(r@), true),
            views(r@).to_multiset() == self@.filter(|v: ItemView| matches_query(v, query@)).to_multiset(),
            query@.len() == 0 ==> views(r@).to_multiset() == self@.to_multiset(),
            forall|k: int| 0 <= k < r@.len() ==> matches_query(#[trigger] views(r@)[k], query@),
    {
        let ghost all = self@;
        let ghost pred = |v: ItemView| matches_query(v, query@);
        let lowered = lowercase_chars(query);
        let mut found: Vec<ClipboardItem> = Vec::new();
        let mut i: usize = 0;
        while i < self.items.len()
            invariant
                0 <= i <= self.items@.len(),
                all == views(self.items@),
                lowered@ == lower_of(query@),
                pred == (|v: ItemView| matches_query(v, query@)),
                views(found@) == all.take(i as int).filter(pred),
            decreases self.items@.len() - i,
        {
            let ghost found_before = found@;
            proof {
                reveal(Seq::filter);
                assert(all.take(i + 1).drop_last() =~= all.take(i as int));
                assert(all.take(i + 1).last() == all[i as int]);
            }
            assert(all[i as int].content == self.items@[i as int].content@);
            let content = lowercase_chars(self.items[i].content.as_str());
            let hit = contains_chars(&content, &lowered);
            assert(hit == pred(all[i as int]));
            if hit {
                found.push(self.items[i].copied());
                assert(views(found@) =~= views(found_before).push(all[i as int]));
            }
            assert(views(found@) =~= all.take(i + 1).filter(pred));
            i += 1;
        }
        assert(all.take(i as int) =~= all);
        let r = sorted_by_rank(&found, true);
        proof {
            assert forall|k: int| 0 <= k < r@.len() implies matches_query(
                #[trigger] views(r@)[k],
                query@,
            ) by {
                let v = views(r@)[k];
                assert(views(r@).to_multiset().count(v) > 0);
                assert(views(found@).to_multiset().count(v) > 0);
                assert(views(found@).contains(v));
                let j = choose|j: int| 0 <= j < views(found@).len() && views(found@)[j] == v;
                all.lemma_filter_pred(pred, j);
            }
            if query@.len() == 0 {
                lemma_lowered_empty_matches_all(all, query@);
            }
        }
        r
    }

    /// A history holding `items`, in that order.
    pub fn from_items(items: Vec<ClipboardItem>) -> (r: ClipboardHistory)
        ensures
            r@ == views(items@),
    {
        ClipboardHistory { items }
    }
}


proof fn lemma_add_post_keeps_pairs_unique(
    old: Seq<ItemView>,
    content: Seq<char>,
    content_type: Seq<char>,
    now: u64,
    new: Seq<ItemView>,
    r: ItemView,
)
    requires
        pairs_unique(old),
        add_post(old, content, content_type, now, new, r),
    ensures
        pairs_unique(new),
        has_pair(new, content, content_type),
{
    if has_pair(old, content, content_type) {
        let i = choose|i: int|
            0 <= i < old.len() && same_pair(old[i], content, content_type) && (forall|k: int|
                0 <= k < i ==> !same_pair(old[k], content, content_type)) && new == touched(
                old,
                i,
                now,
            ) && r == new[i];
        assert(same_pair(new[i], content, content_type));
        assert forall|a: int, b: int|
            0 <= a < new.len() && 0 <= b < new.len() && a != b implies !same_pair(
            new[a],
            new[b].content,
            new[b].content_type,
        ) by {
            assert(!same_pair(old[a], old[b].content, old[b].content_type));
        }
    } else {
        assert(new[old.len() as int] == r);
        assert forall|a: int, b: int|
            0 <= a < new.len() && 0 <= b < new.len() && a != b implies !same_pair(
            new[a],
            new[b].content,
            new[b].content_type,
        ) by {
            if a < old.len() && b < old.len() {
                assert(!same_pair(old[a], old[b].content, old[b].content_type));
            } else if a < old.len() {
                assert(!same_pair(old[a], content, content_type));
            } else {
                assert(!same_pair(old[b], content, content_type));
            }
        }
    }
}

/// Adding the same content of the same kind twice leaves exactly one record
/// holding it, and that record carries the second addition's timestamp.
pub proof fn lemma_add_twice_keeps_one_record(
    h0: Seq<ItemView>,
    content: Seq<char>,
    content_type: Seq<char>,
    t1: u64,
    h1: Seq<ItemView>,
    r1: ItemView,
    t2: u64,
    h2: Seq<ItemView>,
    r2: ItemView,
)
    requires
        pairs_unique(h0),
        add_post(h0, content, content_type, t1, h1, r1),
        add_post(h1, content, content_type, t2, h2, r2),
    ensures
        exists|i: int|
            0 <= i < h2.len() && same_pair(h2[i], content, content_type) && h2[i].created_at == t2
                && forall|j: int|
                0 <= j < h2.len() && same_pair(h2[j], content, content_type) ==> j == i,
{
    lemma_add_post_keeps_pairs_unique(h0, content, content_type, t1, h1, r1);
    let i = choose|i: int|
        0 <= i < h1.len() && same_pair(h1[i], content, content_type) && (forall|k: int|
            0 <= k < i ==> !same_pair(h1[k], content, content_type)) && h2 == touched(h1, i, t2)
            && r2 == h2[i];
    assert(same_pair(h2[i], content, content_type) && h2[i].created_at == t2);
    assert forall|j: int| 0 <= j < h2.len() && same_pair(h2[j], content, content_type) implies j
        == i by {
        if j != i {
            assert(same_pair(h1[j], content, content_type));
            assert(!same_pair(h1[j], h1[i].content, h1[i].content_type));
        }
    }
}

/// Flipping the favorite flag of the same record twice gives back the
/// history as it was, so an even number of flips changes nothing.
pub proof fn lemma_toggle_twice_restores(
    h0: Seq<ItemView>,
    id: Seq<char>,
    h1: Seq<ItemView>,
    h2: Seq<ItemView>,
)
    requires
        ids_unique(h0),
        toggle_post(h0, id, h1),
        toggle_post(h1, id, h2),
    ensures
        h2 == h0,
{
    if has_id(h0, id) {
        let i = choose|i: int| 0 <= i < h0.len() && h0[i].id == id && h1 == flipped(h0, i);
        assert(h1[i].id == id);
        let j = choose|j: int| 0 <= j < h1.len() && h1[j].id == id && h2 == flipped(h1, j);
        assert(h0[j].id == id);
        assert(j == i);
        assert(h2 =~= h0);
    }
}

/// Flipping the favorite flag of the same record an even number of times,
/// through the states `hs[0]`, `hs[1]`, ..., gives back the first state.
pub proof fn lemma_toggle_even_times_restores(hs: Seq<Seq<ItemView>>, id: Seq<char>, n: nat)
    requires
        hs.len() == 2 * n + 1,
        ids_unique(hs[0]),
        forall|k: int| 0 <= k < 2 * n ==> toggle_post(#[trigger] hs[k], id, hs[k + 1]),
    ensures
        hs[2 * n as int] == hs[0],
    decreases n,
{
    if n > 0 {
        let prefix = hs.take(2 * n - 1);
        assert forall|k: int| 0 <= k < 2 * (n - 1) implies toggle_post(
            #[trigger] prefix[k],
            id,
            prefix[k + 1],
        ) by {
            assert(toggle_post(hs[k], id, hs[k + 1]));
        }
        lemma_toggle_even_times_restores(prefix, id, (n - 1) as nat);
        let m = 2 * n - 2;
        assert(toggle_post(hs[m], id, hs[m + 1]));
        assert(toggle_post(hs[m + 1], id, hs[m + 2]));
        lemma_toggle_twice_restores(hs[m], id, hs[m + 1], hs[m + 2]);
    }
}

/// After clearing, every earlier favorite is still there and no record that
/// was not a favorite is left.
pub proof fn lemma_clear_keeps_exactly_favorites(h: Seq<ItemView>)
    ensures
        forall|v: ItemView| h.contains(v) && v.is_favorite ==> #[trigger] favorites(h).contains(v),
        forall|v: ItemView| #[trigger] favorites(h).contains(v) ==> h.contains(v) && v.is_favorite,
{
    let p = |x: ItemView| is_favorite(x);
    assert forall|v: ItemView| h.contains(v) && v.is_favorite implies #[trigger] h.filter(
        p,
    ).contains(v) by {
        let i = choose|i: int| 0 <= i < h.len() && h[i] == v;
        h.lemma_filter_contains(p, i);
    }
    assert forall|v: ItemView| #[trigger] h.filter(p).contains(v) implies h.contains(v)
        && v.is_favorite by {
        let k = choose|k: int| 0 <= k < h.filter(p).len() && h.filter(p)[k] == v;
        h.lemma_filter_pred(p, k);
        lemma_filter_keeps_unique(h, p);
    }
}

proof fn lemma_lowered_empty_matches_all(h: Seq<ItemView>, query: Seq<char>)
    requires
        lower_of(query).len() == 0,
    ensures
        h.filter(|v: ItemView| matches_query(v, query)) == h,
    decreases h.len(),
{
    reveal(Seq::filter);
    if h.len() > 0 {
        lemma_lowered_empty_matches_all(h.drop_last(), query);
        assert(lower_of(h.last().content).subrange(0, 0) =~= lower_of(query));
        assert(occurs_at(lower_of(query), lower_of(h.last().content), 0));
        assert(h.drop_last().push(h.last()) =~= h);
    }
}

/// Two queries with the same lower-case form select the same records: the
/// case of the query does not matter.
pub proof fn lemma_query_case_irrelevant(h: Seq<ItemView>, q1: Seq<char>, q2: Seq<char>)
    requires
        lower_of(q1) == lower_of(q2),
    ensures
        h.filter(|v: ItemView| matches_query(v, q1)) == h.filter(
            |v: ItemView| matches_query(v, q2),
        ),
{
    assert((|v: ItemView| matches_query(v, q1)) =~= (|v: ItemView| matches_query(v, q2)));
}

} // verus!
