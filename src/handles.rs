use crate::handle::Handle;
use itertools::Itertools;
use vstd::prelude::*;

verus! {

/// The identities of a sequence of handles
pub open spec fn ids_of<T>(handles: Seq<Handle<T>>) -> Seq<usize> {
    handles.map_values(|h: Handle<T>| h@)
}

/// The identities are taken one for one, in order
pub proof fn lemma_ids_of<T>(handles: Seq<Handle<T>>)
    ensures
        #[trigger] ids_of(handles).len() == handles.len(),
        forall|i: int| 0 <= i < handles.len() ==> #[trigger] ids_of(handles)[i] == handles[i]@,
{
}

/// No identity occurs twice
pub open spec fn is_distinct(s: Seq<usize>) -> bool {
    forall|i: int, j: int| 0 <= i < s.len() && 0 <= j < s.len() && i != j ==> s[i] != s[j]
}

/// The index at which `x` occurs in `s` (meaningful where it occurs)
pub open spec fn position_of(s: Seq<usize>, x: usize) -> int {
    choose|i: int| 0 <= i < s.len() && s[i] == x
}

/// `s` with the entry at `i` replaced by the entries of `with`
pub open spec fn splice(s: Seq<usize>, i: int, with: Seq<usize>) -> Seq<usize> {
    s.subrange(0, i) + with + s.subrange(i + 1, s.len() as int)
}

/// `s` without the entries equal to `x`
pub open spec fn without(s: Seq<usize>, x: usize) -> Seq<usize> {
    s.filter(|y: usize| y != x)
}

/// Whether `with` may take the place of `target` among `s`: its identities
/// are distinct, and each is `target` itself or new to `s`
pub open spec fn fits_in_place_of(s: Seq<usize>, target: usize, with: Seq<usize>) -> bool {
    &&& is_distinct(with)
    &&& forall|k: int| 0 <= k < with.len() ==> #[trigger] with[k] == target || !s.contains(with[k])
}

/// In a sequence without repetitions, an occurrence determines the position
pub proof fn lemma_position_of(s: Seq<usize>, i: int)
    requires
        is_distinct(s),
        0 <= i < s.len(),
    ensures
        position_of(s, s[i]) == i,
{
    let p = position_of(s, s[i]);
    assert(0 <= p < s.len() && s[p] == s[i]);
}

/// Where an entry ends up when the entry at `i` is replaced by `with`
pub proof fn lemma_splice_index(s: Seq<usize>, i: int, with: Seq<usize>)
    requires
        0 <= i < s.len(),
    ensures
        splice(s, i, with).len() == s.len() - 1 + with.len(),
        forall|k: int| 0 <= k < i ==> #[trigger] splice(s, i, with)[k] == s[k],
        forall|k: int| 0 <= k < with.len() ==> #[trigger] splice(s, i, with)[i + k] == with[k],
        forall|k: int|
            i + 1 <= k < s.len() ==> #[trigger] splice(s, i, with)[k - 1 + with.len()] == s[k],
{
    let r = splice(s, i, with);
    assert forall|k: int| i + 1 <= k < s.len() implies #[trigger] r[k - 1 + with.len()] == s[k] by {
        assert(r[k - 1 + with.len()] == s.subrange(i + 1, s.len() as int)[k - i - 1]);
    }
}

/// Replacing one entry by entries that are new to the sequence, or the
/// entry itself, keeps the identities distinct
pub proof fn lemma_splice_distinct(s: Seq<usize>, i: int, with: Seq<usize>)
    requires
        is_distinct(s),
        is_distinct(with),
        0 <= i < s.len(),
        forall|k: int| 0 <= k < with.len() ==> with[k] == s[i] || !s.contains(#[trigger] with[k]),
    ensures
        is_distinct(splice(s, i, with)),
{
    let r = splice(s, i, with);
    lemma_splice_index(s, i, with);
    let w = with.len() as int;
    assert forall|a: int, b: int| 0 <= a < r.len() && 0 <= b < r.len() && a != b implies r[a]
        != r[b] by {
        // each position of the result stems from `s` (at `src`) or from `with`
        let sa = if a < i {
            a
        } else if a < i + w {
            -1
        } else {
            a + 1 - w
        };
        let sb = if b < i {
            b
        } else if b < i + w {
            -1
        } else {
            b + 1 - w
        };
        if a >= i + w {
            assert(r[(a + 1 - w) - 1 + w] == s[a + 1 - w]);
        }
        if b >= i + w {
            assert(r[(b + 1 - w) - 1 + w] == s[b + 1 - w]);
        }
        if i <= a < i + w {
            assert(r[i + (a - i)] == with[a - i]);
        }
        if i <= b < i + w {
            assert(r[i + (b - i)] == with[b - i]);
        }
        if sa >= 0 && sb < 0 {
            assert(s.contains(s[sa]));
        }
        if sb >= 0 && sa < 0 {
            assert(s.contains(s[sb]));
        }
    }
}

/// Appending entries that are new keeps the identities distinct
pub proof fn lemma_append_distinct(s: Seq<usize>, more: Seq<usize>)
    requires
        is_distinct(s),
        is_distinct(more),
        forall|k: int| 0 <= k < more.len() ==> !s.contains(#[trigger] more[k]),
    ensures
        is_distinct(s + more),
{
    let r = s + more;
    assert forall|a: int, b: int| 0 <= a < r.len() && 0 <= b < r.len() && a != b implies r[a]
        != r[b] by {
        if a < s.len() && b >= s.len() {
            assert(more[b - s.len()] == r[b]);
            assert(s.contains(s[a]));
        }
        if b < s.len() && a >= s.len() {
            assert(more[a - s.len()] == r[a]);
            assert(s.contains(s[b]));
        }
    }
}

/// Relies on itertools' `circular_tuple_windows`: for `n` items it yields
/// `n` pairs, the `i`-th being item `i` and item `(i + 1) % n`.
#[verifier::external_body]
fn circular_pairs<T>(items: &Vec<Handle<T>>) -> (r: Vec<(Handle<T>, Handle<T>)>)
    ensures
        r@.len() == items@.len(),
        forall|i: int|
            0 <= i < r@.len() ==> #[trigger] r@[i].0@ == items@[i]@ && r@[i].1@ == items@[(i + 1)
                % items@.len() as int]@,
{
    items.iter().circular_tuple_windows().map(|(a, b): (&Handle<T>, &Handle<T>)| (a.clone(), b.clone())).collect()
}

/// A copy of a list of handles
pub fn copy_handles<T>(v: &Vec<Handle<T>>) -> (r: Vec<Handle<T>>)
    ensures
        ids_of(r@) == ids_of(v@),
{
    let mut r: Vec<Handle<T>> = Vec::new();
    let mut i: usize = 0;
    while i < v.len()
        invariant
            i <= v@.len(),
            r@.len() == i,
            forall|k: int| 0 <= k < i ==> r@[k]@ == v@[k]@,
        decreases v@.len() - i,
    {
        r.push(v[i]);
        i += 1;
    }
    proof {
        lemma_ids_of(r@);
        lemma_ids_of(v@);
    }
    assert(ids_of(r@) =~= ids_of(v@));
    r
}

/// Circular indexing reaches every entry under its index plus any
/// multiple of the length
pub proof fn lemma_circular_index(s: Seq<usize>, i: int, k: nat)
    requires
        0 <= i < s.len(),
    ensures
        s[(i + k * s.len()) % (s.len() as int)] == s[i],
{
    let n = s.len() as int;
    assert((i + k * n) % n == i) by {
        vstd::arithmetic::div_mod::lemma_mod_multiples_vanish(k as int, i, n);
        vstd::arithmetic::div_mod::lemma_small_mod(i as nat, n as nat);
        assert(k * n == n * k) by (nonlinear_arith);
    }
}

/// Replacing one entry by a single new one keeps the length and the order:
/// only that entry changes
pub proof fn lemma_replace_by_one(s: Seq<usize>, i: int, x: usize)
    requires
        0 <= i < s.len(),
    ensures
        splice(s, i, seq![x]) == s.update(i, x),
        splice(s, i, seq![x]).len() == s.len(),
{
    lemma_splice_index(s, i, seq![x]);
    let r = splice(s, i, seq![x]);
    assert forall|k: int| 0 <= k < s.len() implies #[trigger] r[k] == s.update(i, x)[k] by {
        if k < i {
        } else if k == i {
            assert(r[i + 0] == seq![x][0]);
        } else {
            assert(r[k - 1 + 1] == s[k]);
        }
    }
    assert(r =~= s.update(i, x));
}

/// An ordered set of object handles
///
/// It keeps the order in which handles were added, and never holds two
/// handles with the same identity.
#[derive(Debug)]
pub struct Handles<T> {
    inner: Vec<Handle<T>>,
}

impl<T> View for Handles<T> {
    type V = Seq<usize>;

    closed spec fn view(&self) -> Seq<usize> {
        ids_of(self.inner@)
    }
}

impl<T> Clone for Handles<T> {
    fn clone(&self) -> (r: Self)
        ensures
            r@ == self@,
    {
        proof {
            use_type_invariant(self);
            lemma_ids_of(self.inner@);
        }
        let mut inner: Vec<Handle<T>> = Vec::new();
        let mut i: usize = 0;
        while i < self.inner.len()
            invariant
                i <= self.inner@.len(),
                inner@.len() == i,
                forall|k: int| 0 <= k < i ==> inner@[k]@ == self.inner@[k]@,
                is_distinct(self@),
            decreases self.inner@.len() - i,
        {
            let h = self.inner[i].clone();
            assert(h@ == self.inner@[i as int]@);
            inner.push(h);
            i += 1;
        }
        proof {
            lemma_ids_of(inner@);
            lemma_ids_of(self.inner@);
        }
        assert(ids_of(inner@) =~= ids_of(self.inner@));
        Handles { inner }
    }
}

impl<T> Handles<T> {
    #[verifier::type_invariant]
    pub open spec fn distinct_handles(self) -> bool {
        is_distinct(self@)
    }

    /// Whether no two of `handles` share an identity
    pub fn are_distinct(handles: &Vec<Handle<T>>) -> (r: bool)
        ensures
            r == is_distinct(ids_of(handles@)),
    {
        let ghost s = ids_of(handles@);
        proof {
            lemma_ids_of(handles@);
        }
        let n = handles.len();
        let mut i: usize = 0;
        while i < n
            invariant
                n == s.len(),
                i <= n,
                s == ids_of(handles@),
                forall|a: int, b: int| 0 <= a < i && 0 <= b < n && a != b ==> s[a] != s[b],
            decreases n - i,
        {
            let mut j: usize = 0;
            while j < n
                invariant
                    n == s.len(),
                    i < n,
                    j <= n,
                    s == ids_of(handles@),
                    forall|a: int, b: int| 0 <= a < i && 0 <= b < n && a != b ==> s[a] != s[b],
                    forall|b: int| 0 <= b < j && b != i ==> s[i as int] != s[b],
                decreases n - j,
            {
                if j != i && handles[i].id() == handles[j].id() {
                    assert(s[i as int] == s[j as int]);
                    return false;
                }
                j += 1;
            }
            i += 1;
        }
        true
    }

    /// Create a collection from handles that are pairwise distinct
    pub fn new(handles: Vec<Handle<T>>) -> (r: Self)
        requires
            is_distinct(ids_of(handles@)),
        ensures
            r@ == ids_of(handles@),
    {
        Handles { inner: handles }
    }

    /// The number of handles
    pub fn len(&self) -> (r: usize)
        ensures
            r == self@.len(),
    {
        self.inner.len()
    }

    /// Whether the collection holds no handle
    pub fn is_empty(&self) -> (r: bool)
        ensures
            r == (self@.len() == 0),
    {
        self.inner.len() == 0
    }

    /// The handle at `index`, if there is one
    pub fn nth(&self, index: usize) -> (r: Option<&Handle<T>>)
        ensures
            index < self@.len() ==> (r matches Some(h) && h@ == self@[index as int]),
            index >= self@.len() ==> r is None,
    {
        proof {
            lemma_ids_of(self.inner@);
        }
        if index < self.inner.len() {
            Some(&self.inner[index])
        } else {
            None
        }
    }

    /// The handle at `index`, counting the indices around the collection
    pub fn nth_circular(&self, index: usize) -> (r: &Handle<T>)
        requires
            self@.len() > 0,
        ensures
            r@ == self@[index as int % self@.len() as int],
    {
        proof {
            lemma_ids_of(self.inner@);
        }
        let i = index % self.inner.len();
        &self.inner[i]
    }

    /// The index of the handle that shares the identity of `handle`
    pub fn index_of(&self, handle: &Handle<T>) -> (r: Option<usize>)
        ensures
            r matches Some(i) ==> i < self@.len() && self@[i as int] == handle@,
            r is None <==> !self@.contains(handle@),
    {
        proof {
            lemma_ids_of(self.inner@);
        }
        let mut i: usize = 0;
        while i < self.inner.len()
            invariant
                i <= self@.len(),
                forall|k: int| 0 <= k < i ==> self@[k] != handle@,
            decreases self@.len() - i,
        {
            if self.inner[i].id() == handle.id() {
                assert(self@[i as int] == handle@);
                return Some(i);
            }
            i += 1;
        }
        None
    }

    /// The handle that follows `handle`, the first following the last
    pub fn after(&self, handle: &Handle<T>) -> (r: Option<&Handle<T>>)
        ensures
            !self@.contains(handle@) ==> r is None,
            self@.contains(handle@) ==> (r matches Some(h) && h@ == self@[(position_of(
                self@,
                handle@,
            ) + 1) % self@.len() as int]),
    {
        proof {
            use_type_invariant(self);
            lemma_ids_of(self.inner@);
        }
        match self.index_of(handle) {
            Some(index) => {
                proof {
                    lemma_position_of(self@, index as int);
                }
                if index == self.inner.len() - 1 {
                    proof {
                        vstd::arithmetic::div_mod::lemma_mod_self_0(self@.len() as int);
                    }
                    Some(&self.inner[0])
                } else {
                    proof {
                        vstd::arithmetic::div_mod::lemma_small_mod(
                            (index + 1) as nat,
                            self@.len() as nat,
                        );
                    }
                    Some(&self.inner[index + 1])
                }
            },
            None => None,
        }
    }
    /// The handles, in order
    pub fn iter(&self) -> (r: &[Handle<T>])
        ensures
            ids_of(r@) == self@,
    {
        self.inner.as_slice()
    }

    /// Each handle with the one that follows it, the last with the first
    pub fn pairs(&self) -> (r: Vec<(Handle<T>, Handle<T>)>)
        ensures
            r@.len() == self@.len(),
            forall|i: int|
                0 <= i < r@.len() ==> #[trigger] r@[i].0@ == self@[i] && r@[i].1@ == self@[(i + 1)
                    % self@.len() as int],
    {
        proof {
            lemma_ids_of(self.inner@);
        }
        let r = circular_pairs(&self.inner);
        assert forall|i: int| 0 <= i < r@.len() implies #[trigger] r@[i].0@ == self@[i] && r@[i].1@
            == self@[(i + 1) % self@.len() as int] by {
            let j = (i + 1) % (self@.len() as int);
            assert(0 <= j < self@.len()) by {
                vstd::arithmetic::div_mod::lemma_mod_bound(i + 1, self@.len() as int);
            }
            assert(self@[j] == self.inner@[j]@);
            assert(self@[i] == self.inner@[i]@);
            assert(r@[i].0@ == self.inner@[i]@);
            assert(r@[i].1@ == self.inner@[(i + 1) % (self.inner@.len() as int)]@);
        }
        r
    }

    /// The handles with the one at `index` replaced by `with`
    fn spliced(&self, index: usize, with: Vec<Handle<T>>) -> (r: Vec<Handle<T>>)
        requires
            index < self@.len(),
        ensures
            ids_of(r@) == splice(self@, index as int, ids_of(with@)),
    {
        proof {
            lemma_ids_of(self.inner@);
            lemma_ids_of(with@);
        }
        let ghost target = splice(self@, index as int, ids_of(with@));
        let mut r: Vec<Handle<T>> = Vec::new();
        let mut i: usize = 0;
        while i < index
            invariant
                index < self@.len(),
                i <= index,
                r@.len() == i,
                forall|k: int| 0 <= k < i ==> r@[k]@ == self@[k],
            decreases index - i,
        {
            r.push(self.inner[i].clone());
            i += 1;
        }
        let mut j: usize = 0;
        while j < with.len()
            invariant
                index < self@.len(),
                r@.len() == index + j,
                j <= with@.len(),
                forall|k: int| 0 <= k < index ==> r@[k]@ == self@[k],
                forall|k: int| 0 <= k < j ==> r@[index + k]@ == ids_of(with@)[k],
            decreases with@.len() - j,
        {
            r.push(with[j].clone());
            j += 1;
        }
        let n = self.inner.len();
        let mut i: usize = index + 1;
        while i < n
            invariant
                n == self.inner@.len(),
                self@.len() == self.inner@.len(),
                forall|k: int| 0 <= k < self@.len() ==> self@[k] == self.inner@[k]@,
                index < self@.len(),
                index + 1 <= i <= self@.len(),
                r@.len() == i - 1 + with@.len(),
                forall|k: int| 0 <= k < index ==> r@[k]@ == self@[k],
                forall|k: int| 0 <= k < with@.len() ==> r@[index + k]@ == ids_of(with@)[k],
                forall|k: int| index + 1 <= k < i ==> r@[k - 1 + with@.len()]@ == self@[k],
            decreases self@.len() - i,
        {
            r.push(self.inner[i].clone());
            i += 1;
        }
        proof {
            lemma_ids_of(r@);
            lemma_splice_index(self@, index as int, ids_of(with@));
            assert forall|k: int| 0 <= k < r@.len() implies ids_of(r@)[k] == target[k] by {
                if index <= k < index + with@.len() {
                    assert(target[index + (k - index)] == ids_of(with@)[k - index]);
                } else if k >= index + with@.len() {
                    let m = k + 1 - with@.len();
                    assert(target[m - 1 + with@.len()] == self@[m]);
                }
            }
        }
        assert(ids_of(r@) =~= target);
        r
    }

    /// Replace the handle that shares the identity of `target` by
    /// `replacements`, in its place
    ///
    /// Returns `None` where no such handle is present.
    pub fn replace(&self, target: &Handle<T>, replacements: Vec<Handle<T>>) -> (r: Option<
        Self,
    >)
        requires
            fits_in_place_of(self@, target@, ids_of(replacements@)),
        ensures
            r is None <==> !self@.contains(target@),
            r matches Some(h) ==> h@ == splice(
                self@,
                position_of(self@, target@),
                ids_of(replacements@),
            ),
    {
        proof {
            use_type_invariant(self);
            lemma_ids_of(replacements@);
        }
        match self.index_of(target) {
            None => None,
            Some(index) => {
                proof {
                    lemma_position_of(self@, index as int);
                    lemma_splice_distinct(self@, index as int, ids_of(replacements@));
                }
                let inner = self.spliced(index, replacements);
                Some(Handles { inner })
            },
        }
    }

    /// Update the handle that shares the identity of `handle`, in its place
    ///
    /// `update` is given that handle and returns its replacement.
    pub fn update(&self, handle: &Handle<T>, update: impl FnOnce(&Handle<T>) -> Handle<T>) -> (r:
        Self)
        requires
            self@.contains(handle@),
            update.requires((handle,)),
            forall|n: Handle<T>|
                #[trigger] update.ensures((handle,), n) ==> n@ == handle@ || !self@.contains(n@),
        ensures
            exists|n: Handle<T>|
                #[trigger] update.ensures((handle,), n) && r@ == self@.update(
                    position_of(self@, handle@),
                    n@,
                ),
    {
        proof {
            use_type_invariant(self);
        }
        let updated = update(handle);
        let ghost n = updated;
        let index = match self.index_of(handle) {
            Some(index) => index,
            None => {
                proof {
                    assert(false);
                }
                0
            },
        };
        let with = vec![updated];
        proof {
            lemma_ids_of(with@);
            lemma_position_of(self@, index as int);
            lemma_splice_distinct(self@, index as int, ids_of(with@));
            lemma_splice_index(self@, index as int, ids_of(with@));
        }
        let inner = self.spliced(index, with);
        assert(ids_of(inner@) =~= self@.update(index as int, n@));
        Handles { inner }
    }

    /// The collection with `more` appended
    pub fn extended(&self, more: Vec<Handle<T>>) -> (r: Self)
        requires
            is_distinct(self@ + ids_of(more@)),
        ensures
            r@ == self@ + ids_of(more@),
    {
        proof {
            lemma_ids_of(self.inner@);
            lemma_ids_of(more@);
        }
        let mut inner: Vec<Handle<T>> = Vec::new();
        let mut i: usize = 0;
        while i < self.inner.len()
            invariant
                i <= self@.len(),
                inner@.len() == i,
                forall|k: int| 0 <= k < i ==> inner@[k]@ == self@[k],
            decreases self@.len() - i,
        {
            inner.push(self.inner[i].clone());
            i += 1;
        }
        let mut j: usize = 0;
        while j < more.len()
            invariant
                inner@.len() == self@.len() + j,
                j <= more@.len(),
                forall|k: int| 0 <= k < self@.len() ==> inner@[k]@ == self@[k],
                forall|k: int| 0 <= k < j ==> inner@[self@.len() + k]@ == more@[k]@,
            decreases more@.len() - j,
        {
            inner.push(more[j].clone());
            j += 1;
        }
        proof {
            lemma_ids_of(inner@);
        }
        assert(ids_of(inner@) =~= self@ + ids_of(more@));
        Handles { inner }
    }

    /// The collection without the handle that shares the identity of `handle`
    pub fn without(&self, handle: &Handle<T>) -> (r: Self)
        ensures
            !self@.contains(handle@) ==> r@ == self@,
            self@.contains(handle@) ==> r@ == splice(
                self@,
                position_of(self@, handle@),
                Seq::empty(),
            ),
    {
        proof {
            use_type_invariant(self);
        }
        match self.index_of(handle) {
            None => self.clone(),
            Some(index) => {
                let with: Vec<Handle<T>> = Vec::new();
                proof {
                    lemma_ids_of(with@);
                    assert(ids_of(with@) =~= Seq::<usize>::empty());
                    lemma_position_of(self@, index as int);
                    lemma_splice_distinct(self@, index as int, ids_of(with@));
                }
                let inner = self.spliced(index, with);
                Handles { inner }
            },
        }
    }
}

} // verus!
