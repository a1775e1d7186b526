use crate::args::Fraction;
use rayon::iter::IntoParallelRefMutIterator;
use rayon::iter::ParallelIterator;
use vstd::prelude::*;

verus! {

/// Mathematical model of a disk-usage tree: a name, an aggregated
/// weight, and the models of the children in their stored order.
#[verifier::ext_equal]
pub ghost struct TreeV<Name> {
    /// Name of the node.
    pub name: Name,
    /// Aggregated weight of the node.
    pub data: u64,
    /// Models of the children, in order.
    pub children: Seq<TreeV<Name>>,
}

/// Sum of the weights of the trees in `s`.
pub open spec fn sum_data<Name>(s: Seq<TreeV<Name>>) -> int
    decreases s.len(),
{
    if s.len() == 0 {
        0
    } else {
        sum_data(s.drop_last()) + s.last().data
    }
}

impl<Name> TreeV<Name> {
    /// The aggregation invariant: every node's weight covers the sum of its
    /// children's weights, so a child never outweighs its parent.
    pub open spec fn wf(self) -> bool
        decreases self,
    {
        &&& sum_data(self.children) <= self.data
        &&& forall|i: int|
            0 <= i < self.children.len() ==> (#[trigger] self.children[i]).wf()
    }
}

/// Disk usage data of a filesystem tree.
#[derive(Debug, PartialEq, Eq)]
pub struct Tree<Name> {
    /// Name of the node.
    pub name: Name,
    /// Aggregated weight: own inode weight plus the children's weights.
    pub data: u64,
    /// Child subtrees, in insertion order unless re-sorted.
    pub children: Vec<Tree<Name>>,
}

/// Models of the trees in `s`, in order.
pub open spec fn views_of<Name>(s: Seq<Tree<Name>>) -> Seq<TreeV<Name>>
    decreases s,
{
    if s.len() == 0 {
        Seq::empty()
    } else {
        views_of(s.drop_last()).push(s.last().view())
    }
}

/// `views_of` maps each tree to its model, position by position.
pub proof fn lemma_views_of<Name>(s: Seq<Tree<Name>>)
    ensures
        views_of(s).len() == s.len(),
        forall|i: int| 0 <= i < s.len() ==> views_of(s)[i] == (#[trigger] s[i]).view(),
    decreases s.len(),
{
    if s.len() > 0 {
        lemma_views_of(s.drop_last());
        assert forall|i: int| 0 <= i < s.len() implies views_of(s)[i] == (#[trigger] s[i]).view()
        by {
            if i < s.len() - 1 {
                assert(s.drop_last()[i] == s[i]);
                assert(views_of(s)[i] == views_of(s.drop_last())[i]);
            }
        }
    }
}

impl<Name> Tree<Name> {
    /// Model of this tree.
    pub open spec fn view(self) -> TreeV<Name>
        decreases self,
    {
        TreeV { name: self.name, data: self.data, children: views_of(self.children@) }
    }

    /// Extract name.
    pub fn name(&self) -> (r: &Name)
        ensures
            *r == self@.name,
    {
        &self.name
    }

    /// Extract total disk usage.
    pub fn data(&self) -> (r: u64)
        ensures
            r == self@.data,
    {
        self.data
    }

    /// Extract children.
    pub fn children(&self) -> (r: &Vec<Tree<Name>>)
        ensures
            r@.len() == self@.children.len(),
            forall|i: int| 0 <= i < r@.len() ==> (#[trigger] r@[i])@ == self@.children[i],
    {
        proof {
            lemma_views_of(self.children@);
        }
        &self.children
    }
}

/// One step of a prefix sum: extending the prefix by one tree adds
/// that tree's weight.
pub proof fn lemma_sum_data_take_step<Name>(s: Seq<TreeV<Name>>, i: int)
    requires
        0 <= i < s.len(),
    ensures
        sum_data(s.take(i + 1)) == sum_data(s.take(i)) + s[i].data,
{
    assert(s.take(i + 1).drop_last() =~= s.take(i));
    assert(s.take(i + 1).last() == s[i]);
}

/// A prefix of a sequence never outweighs the whole sequence.
pub proof fn lemma_sum_data_take_le<Name>(s: Seq<TreeV<Name>>, i: int)
    requires
        0 <= i <= s.len(),
    ensures
        sum_data(s.take(i)) <= sum_data(s),
    decreases s.len() - i,
{
    if i == s.len() {
        assert(s.take(i) =~= s);
    } else {
        lemma_sum_data_take_step(s, i);
        lemma_sum_data_take_le(s, i + 1);
    }
}

impl<Name> Tree<Name> {
    /// Create a tree representation of a directory: its weight is the
    /// directory's own inode weight plus the weights of its children.
    pub fn dir(name: Name, inode_size: u64, children: Vec<Tree<Name>>) -> (r: Tree<Name>)
        requires
            inode_size + sum_data(views_of(children@)) <= u64::MAX,
        ensures
            r@ == (TreeV::<Name> {
                name: name,
                data: (inode_size + sum_data(views_of(children@))) as u64,
                children: views_of(children@),
            }),
            (forall|i: int|
                0 <= i < views_of(children@).len() ==> (#[trigger] views_of(children@)[i]).wf())
                ==> r@.wf(),
    {
        proof {
            lemma_views_of(children@);
            lemma_sum_data_nonneg(views_of(children@));
        }
        let ghost vs = views_of(children@);
        let mut data: u64 = inode_size;
        let mut i: usize = 0;
        while i < children.len()
            invariant
                0 <= i <= children.len(),
                vs == views_of(children@),
                vs.len() == children@.len(),
                forall|j: int| 0 <= j < children@.len() ==> vs[j] == (#[trigger] children@[j])@,
                inode_size + sum_data(vs) <= u64::MAX,
                data == inode_size + sum_data(vs.take(i as int)),
            decreases children.len() - i,
        {
            proof {
                lemma_sum_data_take_step(vs, i as int);
                lemma_sum_data_take_le(vs, i + 1);
                lemma_sum_data_nonneg(vs.take(i as int));
            }
            data = data + children[i].data;
            i = i + 1;
        }
        proof {
            assert(vs.take(children@.len() as int) =~= vs);
        }
        Tree { name, data, children }
    }

    /// Create a tree representation of a file: a leaf whose weight is the
    /// measured weight, with no children.
    pub fn file(name: Name, data: u64) -> (r: Tree<Name>)
        ensures
            r@ == (TreeV::<Name> { name: name, data: data, children: Seq::empty() }),
            r@.wf(),
    {
        Tree { name, data, children: Vec::new() }
    }
}

/// The children are ordered by weight, heaviest first.
pub open spec fn sorted_desc<Name>(s: Seq<TreeV<Name>>) -> bool {
    forall|i: int, j: int| 0 <= i <= j < s.len() ==> s[i].data >= s[j].data
}

/// Insert `x` into the descending sequence `s`, after any tree of equal
/// weight.
pub open spec fn insert_desc<Name>(s: Seq<TreeV<Name>>, x: TreeV<Name>) -> Seq<TreeV<Name>>
    decreases s.len(),
{
    if s.len() == 0 {
        seq![x]
    } else if s.last().data >= x.data {
        s.push(x)
    } else {
        insert_desc(s.drop_last(), x).push(s.last())
    }
}

/// Sort a sequence of trees by weight, heaviest first, keeping trees of
/// equal weight in their given order.
pub open spec fn sort_desc<Name>(s: Seq<TreeV<Name>>) -> Seq<TreeV<Name>>
    decreases s.len(),
{
    if s.len() == 0 {
        Seq::empty()
    } else {
        insert_desc(sort_desc(s.drop_last()), s.last())
    }
}

/// Sort every tree of `s` recursively; the sequence itself keeps its order.
pub open spec fn sort_each<Name>(s: Seq<TreeV<Name>>) -> Seq<TreeV<Name>>
    decreases s,
{
    if s.len() == 0 {
        Seq::empty()
    } else {
        sort_each(s.drop_last()).push(sort_tree(s.last()))
    }
}

/// The tree after a recursive sort: every node's children are ordered by
/// weight, heaviest first; nothing else changes.
pub open spec fn sort_tree<Name>(t: TreeV<Name>) -> TreeV<Name>
    decreases t,
{
    TreeV { name: t.name, data: t.data, children: sort_desc(sort_each(t.children)) }
}

/// The weights in a sequence of models sum to a non-negative value.
pub proof fn lemma_sum_data_nonneg<Name>(s: Seq<TreeV<Name>>)
    ensures
        0 <= sum_data(s),
    decreases s.len(),
{
    if s.len() > 0 {
        lemma_sum_data_nonneg(s.drop_last());
    }
}

/// No single tree outweighs the sum of its sequence.
pub proof fn lemma_sum_data_member<Name>(s: Seq<TreeV<Name>>, i: int)
    requires
        0 <= i < s.len(),
    ensures
        s[i].data <= sum_data(s),
    decreases s.len(),
{
    lemma_sum_data_nonneg(s.drop_last());
    if i < s.len() - 1 {
        assert(s.drop_last()[i] == s[i]);
        lemma_sum_data_member(s.drop_last(), i);
    }
}

/// `sort_each` sorts each tree in place, position by position.
pub proof fn lemma_sort_each<Name>(s: Seq<TreeV<Name>>)
    ensures
        sort_each(s).len() == s.len(),
        forall|i: int| 0 <= i < s.len() ==> sort_each(s)[i] == sort_tree(#[trigger] s[i]),
    decreases s.len(),
{
    if s.len() > 0 {
        lemma_sort_each(s.drop_last());
        assert forall|i: int| 0 <= i < s.len() implies sort_each(s)[i] == sort_tree(
            #[trigger] s[i],
        ) by {
            if i < s.len() - 1 {
                assert(s.drop_last()[i] == s[i]);
                assert(sort_each(s)[i] == sort_each(s.drop_last())[i]);
            }
        }
    }
}

/// Inserting into a descending sequence keeps it descending, adds one to
/// the length, adds the new tree's weight to the total, and keeps every
/// property `p` that the inserted tree and all members enjoy.
pub proof fn lemma_insert_desc<Name>(
    s: Seq<TreeV<Name>>,
    x: TreeV<Name>,
    p: spec_fn(TreeV<Name>) -> bool,
)
    requires
        sorted_desc(s),
        forall|i: int| 0 <= i < s.len() ==> p(#[trigger] s[i]),
        p(x),
    ensures
        sorted_desc(insert_desc(s, x)),
        insert_desc(s, x).len() == s.len() + 1,
        sum_data(insert_desc(s, x)) == sum_data(s) + x.data,
        forall|i: int| 0 <= i < insert_desc(s, x).len() ==> p(#[trigger] insert_desc(s, x)[i]),
    decreases s.len(),
{
    if s.len() == 0 {
        assert(seq![x].drop_last() =~= Seq::<TreeV<Name>>::empty());
        assert(seq![x].last() == x);
        assert(sum_data(Seq::<TreeV<Name>>::empty()) == 0);
    } else if s.last().data >= x.data {
        assert(s.push(x).drop_last() =~= s);
        assert(s.push(x).last() == x);
    } else {
        let s0 = s.drop_last();
        assert(forall|i: int, j: int|
            0 <= i <= j < s0.len() ==> s0[i].data >= s0[j].data) by {
            assert(forall|i: int| 0 <= i < s0.len() ==> s0[i] == s[i]);
        }
        lemma_insert_desc(s0, x, p);
        let r0 = insert_desc(s0, x);
        let r = r0.push(s.last());
        assert(r.drop_last() =~= r0);
        assert(r.last() == s.last());
        assert(sum_data(r) == sum_data(r0) + s.last().data);
        assert(sum_data(s) == sum_data(s0) + s.last().data);
        // the displaced last tree is lighter than x and so lighter than
        // everything already in r0
        assert forall|i: int, j: int| 0 <= i <= j < r.len() implies r[i].data >= r[j].data by {
            if j == r.len() - 1 && i < j {
                assert(r[i] == r0[i]);
                lemma_insert_desc_members(s0, x, i);
            }
        }
    }
}

/// Every member of `insert_desc(s, x)` is either `x` or a member of `s`.
proof fn lemma_insert_desc_members<Name>(s: Seq<TreeV<Name>>, x: TreeV<Name>, i: int)
    requires
        0 <= i < insert_desc(s, x).len(),
    ensures
        insert_desc(s, x)[i] == x || exists|k: int| 0 <= k < s.len() && s[k] == insert_desc(s, x)[i],
    decreases s.len(),
{
    if s.len() == 0 {
    } else if s.last().data >= x.data {
    } else {
        let r = insert_desc(s.drop_last(), x).push(s.last());
        if i < r.len() - 1 {
            lemma_insert_desc_members(s.drop_last(), x, i);
        }
    }
}

/// Sorting a sequence of trees by weight keeps the length, the total
/// weight, and every property `p` shared by all members; the result is
/// descending; and a sequence already descending is left unchanged.
pub proof fn lemma_sort_desc<Name>(s: Seq<TreeV<Name>>, p: spec_fn(TreeV<Name>) -> bool)
    requires
        forall|i: int| 0 <= i < s.len() ==> p(#[trigger] s[i]),
    ensures
        sorted_desc(sort_desc(s)),
        sort_desc(s).len() == s.len(),
        sum_data(sort_desc(s)) == sum_data(s),
        forall|i: int| 0 <= i < s.len() ==> p(#[trigger] sort_desc(s)[i]),
        sorted_desc(s) ==> sort_desc(s) == s,
    decreases s.len(),
{
    if s.len() > 0 {
        let s0 = s.drop_last();
        assert(forall|i: int| 0 <= i < s0.len() ==> p(#[trigger] s0[i])) by {
            assert(forall|i: int| 0 <= i < s0.len() ==> s0[i] == s[i]);
        }
        lemma_sort_desc(s0, p);
        lemma_insert_desc(sort_desc(s0), s.last(), p);
        if sorted_desc(s) {
            assert(forall|i: int, j: int|
                0 <= i <= j < s0.len() ==> s0[i].data >= s0[j].data) by {
                assert(forall|i: int| 0 <= i < s0.len() ==> s0[i] == s[i]);
            }
            assert(sort_desc(s0) == s0);
            if s0.len() > 0 {
                assert(s0.last().data >= s.last().data);
            }
            assert(insert_desc(s0, s.last()) =~= s);
        }
    }
}

/// Inserting `x` into a descending sequence lands exactly at position `j`,
/// the first place from the right where the neighbour is at least as heavy.
pub proof fn lemma_insert_desc_at<Name>(s: Seq<TreeV<Name>>, x: TreeV<Name>, j: int)
    requires
        sorted_desc(s),
        0 <= j <= s.len(),
        forall|k: int| j <= k < s.len() ==> s[k].data < x.data,
        j > 0 ==> s[j - 1].data >= x.data,
    ensures
        insert_desc(s, x) == s.insert(j, x),
    decreases s.len(),
{
    if s.len() == 0 {
        assert(insert_desc(s, x) =~= s.insert(0, x));
    } else if s.last().data >= x.data {
        assert(j == s.len());
        assert(s.push(x) =~= s.insert(s.len() as int, x));
    } else {
        assert(j < s.len());
        let s0 = s.drop_last();
        assert(forall|i: int| 0 <= i < s0.len() ==> s0[i] == s[i]);
        lemma_insert_desc_at(s0, x, j);
        assert(insert_desc(s0, x).push(s.last()) =~= s.insert(j, x)) by {
            assert(insert_desc(s0, x) == s0.insert(j, x));
        }
    }
}

/// A recursive sort keeps the name and weight of every node and keeps the
/// aggregation invariant.
pub proof fn lemma_sort_tree_wf<Name>(t: TreeV<Name>)
    requires
        t.wf(),
    ensures
        sort_tree(t).wf(),
        sort_tree(t).name == t.name,
        sort_tree(t).data == t.data,
    decreases t,
{
    let c = t.children;
    let m = sort_each(c);
    lemma_sort_each(c);
    assert forall|i: int| 0 <= i < m.len() implies (#[trigger] m[i]).wf() && m[i].data
        == c[i].data by {
        assert(c[i].wf());
        lemma_sort_tree_wf(c[i]);
    }
    lemma_sum_data_pointwise(c, m);
    let p = |u: TreeV<Name>| u.wf();
    lemma_sort_desc(m, p);
    assert(sum_data(sort_desc(m)) <= t.data);
}

/// Two sequences with pairwise equal weights have the same total weight.
pub proof fn lemma_sum_data_pointwise<Name>(a: Seq<TreeV<Name>>, b: Seq<TreeV<Name>>)
    requires
        a.len() == b.len(),
        forall|i: int| 0 <= i < a.len() ==> a[i].data == (#[trigger] b[i]).data,
    ensures
        sum_data(a) == sum_data(b),
    decreases a.len(),
{
    if a.len() > 0 {
        assert(forall|i: int| 0 <= i < a.len() - 1 ==> a.drop_last()[i] == a[i]);
        assert(forall|i: int| 0 <= i < b.len() - 1 ==> b.drop_last()[i] == b[i]);
        lemma_sum_data_pointwise(a.drop_last(), b.drop_last());
    }
}

/// The recursive sort is idempotent: sorting a tree twice yields the same
/// tree as sorting it once.
pub proof fn lemma_par_sort_idempotent<Name>(t: TreeV<Name>)
    ensures
        sort_tree(sort_tree(t)) == sort_tree(t),
    decreases t,
{
    let c = t.children;
    let m = sort_each(c);
    lemma_sort_each(c);
    let p = |u: TreeV<Name>| sort_tree(u) == u;
    assert forall|i: int| 0 <= i < m.len() implies p(m[i]) by {
        lemma_par_sort_idempotent(c[i]);
    }
    lemma_sort_desc(m, p);
    let d = sort_desc(m);
    lemma_sort_each(d);
    assert(sort_each(d) =~= d);
    lemma_sort_desc(d, p);
    assert(sort_tree(sort_tree(t)) =~= sort_tree(t));
}

/// Sort a list of sibling subtrees by weight, heaviest first, keeping
/// subtrees of equal weight in their given order.
fn sort_children_by_data_desc<Name>(children: &mut Vec<Tree<Name>>)
    ensures
        views_of(final(children)@) == sort_desc(views_of(old(children)@)),
{
    let ghost orig = views_of(old(children)@);
    proof {
        lemma_views_of(old(children)@);
    }
    if children.len() <= 1 {
        proof {
            assert(sorted_desc(orig));
            lemma_sort_desc(orig, |u: TreeV<Name>| true);
        }
        return ;
    }
    let ghost mut vs = orig;
    proof {
        assert(orig.take(1).drop_last() =~= Seq::<TreeV<Name>>::empty());
        assert(orig.take(1).last() == orig[0]);
        assert(sort_desc(Seq::<TreeV<Name>>::empty()) == Seq::<TreeV<Name>>::empty());
        assert(insert_desc(Seq::<TreeV<Name>>::empty(), orig[0]) == seq![orig[0]]);
        assert(sort_desc(orig.take(1)) == seq![orig[0]]);
        assert(vs.take(1) =~= seq![orig[0]]);
    }
    let mut i: usize = 1;
    while i < children.len()
        invariant
            1 <= i <= children@.len(),
            children@.len() == orig.len(),
            vs.len() == orig.len(),
            forall|k: int| 0 <= k < orig.len() ==> (#[trigger] children@[k])@ == vs[k],
            forall|k: int| i <= k < orig.len() ==> vs[k] == orig[k],
            vs.take(i as int) == sort_desc(orig.take(i as int)),
            sorted_desc(vs.take(i as int)),
        decreases children@.len() - i,
    {
        let x_data = children[i].data;
        let mut j: usize = i;
        while j > 0 && children[j - 1].data < x_data
            invariant
                0 <= j <= i < children@.len(),
                vs.len() == orig.len(),
                children@.len() == orig.len(),
                forall|k: int| 0 <= k < orig.len() ==> (#[trigger] children@[k])@ == vs[k],
                x_data == vs[i as int].data,
                forall|k: int| j <= k < i ==> vs[k].data < x_data,
            decreases j,
        {
            j = j - 1;
        }
        let ghost x_v = vs[i as int];
        let ghost s = vs.take(i as int);
        let x = children.remove(i);
        children.insert(j, x);
        proof {
            assert(forall|k: int| 0 <= k < i ==> s[k] == vs[k]);
            assert(forall|k: int| (j as int) <= k < s.len() ==> s[k].data < x_v.data);
            assert(j > 0 ==> s[j - 1].data >= x_v.data);
            lemma_insert_desc_at(s, x_v, j as int);
            lemma_insert_desc(s, x_v, |u: TreeV<Name>| true);
            let vs_old = vs;
            vs = vs.remove(i as int).insert(j as int, x_v);
            vs_old.remove_ensures(i as int);
            vs_old.remove(i as int).insert_ensures(j as int, x_v);
            // the new prefix is exactly the sorted old prefix with the
            // next tree inserted at its place
            assert(vs.take(i + 1) =~= s.insert(j as int, x_v)) by {
                assert forall|k: int| 0 <= k < i + 1 implies vs[k] == s.insert(j as int, x_v)[k]
                by {
                    s.insert_ensures(j as int, x_v);
                    if k < j {
                        assert(vs[k] == vs_old.remove(i as int)[k]);
                        assert(vs[k] == vs_old[k]);
                    } else if k == j {
                        assert(vs[k] == x_v);
                    } else {
                        assert(vs[k] == vs_old.remove(i as int)[k - 1]);
                        assert(vs[k] == vs_old[k - 1]);
                        assert(s.insert(j as int, x_v)[k] == s[k - 1]);
                    }
                }
            }
            assert(orig.take(i + 1).drop_last() =~= orig.take(i as int));
            assert(orig.take(i + 1).last() == orig[i as int]);
            assert(x_v == orig[i as int]);
            assert(sort_desc(orig.take(i + 1)) == insert_desc(s, x_v));
            assert(vs.take(i + 1) == sort_desc(orig.take(i + 1)));
            assert(sorted_desc(vs.take(i + 1))) by {
                assert(vs.take(i + 1) == insert_desc(s, x_v));
            }
            // the tail beyond the inserted position is untouched
            assert forall|k: int| i + 1 <= k < orig.len() implies vs[k] == orig[k] by {
                assert(vs[k] == vs_old.remove(i as int)[k - 1]);
                assert(vs_old.remove(i as int)[k - 1] == vs_old[k]);
            }
            // the vector still matches its model, position by position
            assert forall|k: int| 0 <= k < orig.len() implies (#[trigger] children@[k])@ == vs[k]
            by {
                if k < j {
                } else if k == j {
                } else if k <= i {
                } else {
                }
            }
        }
        i = i + 1;
    }
    proof {
        assert(vs.take(orig.len() as int) =~= vs);
        assert(orig.take(orig.len() as int) =~= orig);
        lemma_views_of(children@);
        assert forall|k: int| 0 <= k < orig.len() implies views_of(children@)[k] == vs[k] by {
            assert((children@[k])@ == vs[k]);
        }
        assert(views_of(children@) =~= vs);
    }
}

/// Reflection of [`Tree`] used for testing purposes.
///
/// Unlike `Tree` where the accessors are the intended interface, the
/// fields of `TreeReflection` exist to allow plain construction in tests.
#[derive(Debug, PartialEq, Eq)]
pub struct TreeReflection<Name> {
    /// Name of the tree.
    pub name: Name,
    /// Disk usage of a file or total disk usage of a folder.
    pub data: u64,
    /// Reflections of the children subtrees.
    pub children: Vec<TreeReflection<Name>>,
}

/// Models of the reflections in `s`, in order.
pub open spec fn refl_views_of<Name>(s: Seq<TreeReflection<Name>>) -> Seq<TreeV<Name>>
    decreases s,
{
    if s.len() == 0 {
        Seq::empty()
    } else {
        refl_views_of(s.drop_last()).push(s.last().view())
    }
}

/// `refl_views_of` maps each reflection to its model, position by position.
pub proof fn lemma_refl_views_of<Name>(s: Seq<TreeReflection<Name>>)
    ensures
        refl_views_of(s).len() == s.len(),
        forall|i: int| 0 <= i < s.len() ==> refl_views_of(s)[i] == (#[trigger] s[i]).view(),
    decreases s.len(),
{
    if s.len() > 0 {
        lemma_refl_views_of(s.drop_last());
        assert forall|i: int| 0 <= i < s.len() implies refl_views_of(s)[i] == (
        #[trigger] s[i]).view() by {
            if i < s.len() - 1 {
                assert(s.drop_last()[i] == s[i]);
                assert(refl_views_of(s)[i] == refl_views_of(s.drop_last())[i]);
            }
        }
    }
}

impl<Name> TreeReflection<Name> {
    /// Model of this reflection: the same model as the tree it mirrors.
    pub open spec fn view(self) -> TreeV<Name>
        decreases self,
    {
        TreeV { name: self.name, data: self.data, children: refl_views_of(self.children@) }
    }

    /// Create a reflection of a tree, children included, in order.
    pub fn from(source: Tree<Name>) -> (r: TreeReflection<Name>)
        ensures
            r@ == source@,
    {
        source.into_reflection()
    }
}

impl<Name> Tree<Name> {
    /// Create the reflection of this tree: the same name, weight and
    /// children, with every node open for inspection.
    #[verifier::loop_isolation(false)]
    pub fn into_reflection(self) -> (r: TreeReflection<Name>)
        ensures
            r@ == self@,
        decreases self,
    {
        let ghost t0 = self;
        let mut this = self;
        let mut refl: Vec<TreeReflection<Name>> = Vec::new();
        proof {
            lemma_views_of(t0.children@);
        }
        while this.children.len() > 0
            invariant
                refl@.len() + this.children@.len() == t0.children@.len(),
                this.name == t0.name,
                this.data == t0.data,
                forall|m: int|
                    0 <= m < refl@.len() ==> (#[trigger] refl@[m])@ == (t0.children@[m])@,
                forall|m: int|
                    0 <= m < this.children@.len() ==> #[trigger] this.children@[m]
                        == t0.children@[m + refl@.len()],
            decreases this.children@.len(),
        {
            let ghost j = refl@.len() as int;
            let c = this.children.remove(0);
            proof {
                assert(c == t0.children@[j]);
                assert(decreases_to!(t0 => t0.children));
                assert(decreases_to!(t0.children => t0.children@));
                assert(decreases_to!(t0.children@ => t0.children@[j]));
                assert(decreases_to!(t0 => c));
            }
            let r = c.into_reflection();
            refl.push(r);
        }
        proof {
            lemma_refl_views_of(refl@);
            assert forall|m: int| 0 <= m < refl@.len() implies refl_views_of(refl@)[m]
                == views_of(t0.children@)[m] by {
                assert((refl@[m])@ == (t0.children@[m])@);
            }
            assert(refl_views_of(refl@) =~= views_of(t0.children@));
        }
        let Tree { name, data, children: _ } = this;
        TreeReflection { name, data, children: refl }
    }
}

/// Relies on rayon's `par_iter_mut().for_each`: the closure runs exactly
/// once on every element of the vector, in place and independently; here
/// it applies the verified `par_sort_by` to each subtree, so each final
/// element is the recursive sort of the old element at the same position.
#[verifier::external_body]
fn par_sort_subtrees<Name: Send>(children: &mut Vec<Tree<Name>>)
    ensures
        final(children)@.len() == old(children)@.len(),
        forall|i: int|
            0 <= i < old(children)@.len() ==> (#[trigger] final(children)@[i])@ == sort_tree(
                old(children)@[i]@,
            ),
{
    children.par_iter_mut().for_each(|child| child.par_sort_by());
}

impl<Name: Send> Tree<Name> {
    /// Sort all descendants recursively by weight, heaviest first, in
    /// parallel; subtrees of equal weight keep their relative order.
    pub fn par_sort_by(&mut self)
        ensures
            final(self)@ == sort_tree(old(self)@),
    {
        let ghost t0 = *old(self);
        par_sort_subtrees(&mut self.children);
        proof {
            lemma_views_of(t0.children@);
            lemma_views_of(self.children@);
            lemma_sort_each(views_of(t0.children@));
            assert forall|i: int| 0 <= i < t0.children@.len() implies views_of(self.children@)[i]
                == sort_each(views_of(t0.children@))[i] by {
                assert(views_of(self.children@)[i] == (self.children@[i])@);
                assert((self.children@[i])@ == sort_tree((t0.children@[i])@));
                assert(views_of(t0.children@)[i] == (t0.children@[i])@);
            }
            assert(views_of(self.children@) =~= sort_each(views_of(t0.children@)));
        }
        sort_children_by_data_desc(&mut self.children);
        proof {
            assert(final(self)@ =~= sort_tree(t0@));
        }
    }

    /// Process the tree via the recursive parallel sort, by value.
    pub fn into_par_sorted(self) -> (r: Tree<Name>)
        ensures
            r@ == sort_tree(self@),
    {
        let mut this = self;
        this.par_sort_by();
        this
    }
}

/// Whether a subtree of weight `c.data` holds at least the fraction
/// `num / den` of the root weight `root`, and so stays visible.
pub open spec fn keep_child<Name>(c: TreeV<Name>, num: int, den: int, root: int) -> bool {
    c.data * den >= root * num
}

/// The trees of `s` that hold at least the given fraction of the root
/// weight, in their given order, not yet culled below.
pub open spec fn keep_only<Name>(s: Seq<TreeV<Name>>, num: int, den: int, root: int) -> Seq<
    TreeV<Name>,
>
    decreases s,
{
    if s.len() == 0 {
        Seq::empty()
    } else {
        let rest = keep_only(s.drop_last(), num, den, root);
        if keep_child(s.last(), num, den, root) {
            rest.push(s.last())
        } else {
            rest
        }
    }
}

/// The significant trees of `s`, each culled recursively against the same
/// root weight.
pub open spec fn cull_children<Name>(s: Seq<TreeV<Name>>, num: int, den: int, root: int) -> Seq<
    TreeV<Name>,
>
    decreases s,
{
    if s.len() == 0 {
        Seq::empty()
    } else {
        let rest = cull_children(s.drop_last(), num, den, root);
        if keep_child(s.last(), num, den, root) {
            rest.push(cull_node(s.last(), num, den, root))
        } else {
            rest
        }
    }
}

/// The tree after culling: children lighter than the fraction `num / den`
/// of the root weight are removed, recursively; the node's own weight is
/// untouched, so culling is visual pruning, not re-aggregation.
pub open spec fn cull_node<Name>(t: TreeV<Name>, num: int, den: int, root: int) -> TreeV<Name>
    decreases t,
{
    TreeV { name: t.name, data: t.data, children: cull_children(t.children, num, den, root) }
}

/// Every node of `t`, including `t` itself, holds at least the fraction
/// `num / den` of the root weight `root`.
pub open spec fn significant_tree<Name>(t: TreeV<Name>, num: int, den: int, root: int) -> bool
    decreases t,
{
    &&& keep_child(t, num, den, root)
    &&& forall|i: int|
        0 <= i < t.children.len() ==> significant_tree(
            #[trigger] t.children[i],
            num,
            den,
            root,
        )
}

/// Culling a sequence culls each kept tree, position by position.
pub proof fn lemma_cull_children<Name>(s: Seq<TreeV<Name>>, num: int, den: int, root: int)
    ensures
        cull_children(s, num, den, root).len() == keep_only(s, num, den, root).len(),
        forall|i: int|
            0 <= i < keep_only(s, num, den, root).len() ==> cull_children(s, num, den, root)[i]
                == cull_node(#[trigger] keep_only(s, num, den, root)[i], num, den, root),
        forall|i: int|
            0 <= i < keep_only(s, num, den, root).len() ==> keep_child(
                #[trigger] keep_only(s, num, den, root)[i],
                num,
                den,
                root,
            ),
        sum_data(keep_only(s, num, den, root)) <= sum_data(s),
    decreases s.len(),
{
    lemma_sum_data_nonneg(s);
    if s.len() > 0 {
        lemma_cull_children(s.drop_last(), num, den, root);
        lemma_sum_data_nonneg(s.drop_last());
        let rest = keep_only(s.drop_last(), num, den, root);
        if keep_child(s.last(), num, den, root) {
            assert(rest.push(s.last()).drop_last() =~= rest);
            assert(cull_children(s.drop_last(), num, den, root).push(
                cull_node(s.last(), num, den, root),
            ).drop_last() =~= cull_children(s.drop_last(), num, den, root));
        }
    }
}

/// Culling never changes the root's weight, and every remaining subtree
/// below the root holds at least the fraction `num / den` of the root's
/// weight; the aggregation invariant survives.
pub proof fn lemma_cull_insignificant<Name>(t: TreeV<Name>, num: int, den: int, root: int)
    ensures
        cull_node(t, num, den, root).data == t.data,
        cull_node(t, num, den, root).name == t.name,
        forall|i: int|
            0 <= i < cull_node(t, num, den, root).children.len() ==> significant_tree(
                #[trigger] cull_node(t, num, den, root).children[i],
                num,
                den,
                root,
            ),
        t.wf() ==> cull_node(t, num, den, root).wf(),
        keep_child(t, num, den, root) ==> significant_tree(cull_node(t, num, den, root), num, den, root),
    decreases t,
{
    let c = t.children;
    let kept = keep_only(c, num, den, root);
    let culled = cull_children(c, num, den, root);
    lemma_cull_children(c, num, den, root);
    assert forall|i: int| 0 <= i < culled.len() implies significant_tree(
        #[trigger] culled[i],
        num,
        den,
        root,
    ) && culled[i].data == kept[i].data && (t.wf() ==> culled[i].wf()) by {
        lemma_keep_only_members(c, num, den, root, i);
        let k = choose|k: int| 0 <= k < c.len() && c[k] == kept[i];
        assert(decreases_to!(t => t.children[k]));
        lemma_cull_insignificant(c[k], num, den, root);
        assert(keep_child(kept[i], num, den, root));
        assert(culled[i] == cull_node(c[k], num, den, root));
        if t.wf() {
            assert(c[k].wf());
        }
    }
    if t.wf() {
        lemma_sum_data_pointwise(culled, kept);
    }
}

/// Relies on rayon's `par_iter_mut().for_each`: the closure runs exactly
/// once on every element of the vector, in place and independently; here
/// it applies the verified `cull_below` to each subtree, so each final
/// element is the culled form of the old element at the same position.
#[verifier::external_body]
fn par_cull_subtrees<Name: Send>(children: &mut Vec<Tree<Name>>, num: u64, den: u64, root: u64)
    ensures
        final(children)@.len() == old(children)@.len(),
        forall|i: int|
            0 <= i < old(children)@.len() ==> (#[trigger] final(children)@[i])@ == cull_node(
                old(children)@[i]@,
                num as int,
                den as int,
                root as int,
            ),
{
    children.par_iter_mut().for_each(|child| child.cull_below(num, den, root));
}

impl<Name: Send> Tree<Name> {
    /// Remove, recursively and in parallel, every child subtree whose
    /// weight is below the fraction `min_ratio` of this tree's own weight.
    /// This tree's weight itself never changes: culling is visual pruning.
    pub fn cull_insignificant(&mut self, min_ratio: &Fraction)
        requires
            min_ratio.wf(),
        ensures
            final(self)@ == cull_node(
                old(self)@,
                min_ratio.numerator as int,
                min_ratio.denominator as int,
                old(self)@.data as int,
            ),
            final(self)@.data == old(self)@.data,
    {
        let root = self.data;
        self.cull_below(min_ratio.numerator, min_ratio.denominator, root);
    }

    /// Remove every child subtree lighter than `num / den` of the weight
    /// `root`, recursively.
    fn cull_below(&mut self, num: u64, den: u64, root: u64)
        ensures
            final(self)@ == cull_node(old(self)@, num as int, den as int, root as int),
    {
        let ghost t0 = *old(self);
        let ghost orig = views_of(t0.children@);
        proof {
            lemma_views_of(t0.children@);
        }
        let ghost mut vs = orig;
        let ghost mut k: int = 0;
        let mut i: usize = 0;
        while i < self.children.len()
            invariant
                0 <= k <= orig.len(),
                i as int == keep_only(orig.take(k), num as int, den as int, root as int).len(),
                vs =~= keep_only(orig.take(k), num as int, den as int, root as int) + orig.skip(
                    k,
                ),
                vs.len() == self.children@.len(),
                forall|m: int|
                    0 <= m < vs.len() ==> (#[trigger] self.children@[m])@ == vs[m],
                self.name == t0.name,
                self.data == t0.data,
            decreases orig.len() - k,
        {
            proof {
                lemma_keep_only_len(orig.take(k), num as int, den as int, root as int);
                assert(orig.take(k + 1).drop_last() =~= orig.take(k));
                assert(orig.take(k + 1).last() == orig[k]);
                assert(vs[i as int] == orig[k]);
            }
            let c_data = self.children[i].data;
            proof {
                vstd::arithmetic::mul::lemma_mul_upper_bound(
                    c_data as int,
                    u64::MAX as int,
                    den as int,
                    u64::MAX as int,
                );
                vstd::arithmetic::mul::lemma_mul_upper_bound(
                    root as int,
                    u64::MAX as int,
                    num as int,
                    u64::MAX as int,
                );
            }
            let keep = (c_data as u128) * (den as u128) >= (root as u128) * (num as u128);
            if keep {
                i = i + 1;
                proof {
                    let kp0 = keep_only(orig.take(k), num as int, den as int, root as int);
                    let kp1 = keep_only(orig.take(k + 1), num as int, den as int, root as int);
                    assert(kp1 == kp0.push(orig[k]));
                    k = k + 1;
                    assert(vs =~= kp1 + orig.skip(k));
                }
            } else {
                let ghost prev = self.children@;
                self.children.remove(i);
                proof {
                    let vs_old = vs;
                    vs = vs.remove(i as int);
                    vs_old.remove_ensures(i as int);
                    prev.remove_ensures(i as int);
                    let kp0 = keep_only(orig.take(k), num as int, den as int, root as int);
                    let kp1 = keep_only(orig.take(k + 1), num as int, den as int, root as int);
                    assert(kp1 == kp0);
                    k = k + 1;
                    assert(vs =~= kp1 + orig.skip(k));
                    assert forall|m: int| 0 <= m < vs.len() implies (
                    #[trigger] self.children@[m])@ == vs[m] by {
                        if m < i as int {
                            assert(self.children@[m] == prev[m]);
                            assert(vs[m] == vs_old[m]);
                        } else {
                            assert(self.children@[m] == prev[m + 1]);
                            assert(vs[m] == vs_old[m + 1]);
                        }
                    }
                }
            }
        }
        proof {
            assert(orig.take(k) =~= orig);
            assert(orig.skip(k) =~= Seq::<TreeV<Name>>::empty());
            assert(vs =~= keep_only(orig, num as int, den as int, root as int));
        }
        par_cull_subtrees(&mut self.children, num, den, root);
        proof {
            let kept = keep_only(orig, num as int, den as int, root as int);
            let culled = cull_children(orig, num as int, den as int, root as int);
            lemma_cull_children(orig, num as int, den as int, root as int);
            lemma_views_of(self.children@);
            assert forall|m: int| 0 <= m < kept.len() implies views_of(self.children@)[m]
                == culled[m] by {
                assert((self.children@[m])@ == cull_node(
                    kept[m],
                    num as int,
                    den as int,
                    root as int,
                ));
            }
            assert(views_of(self.children@) =~= culled);
            assert(final(self)@ =~= cull_node(t0@, num as int, den as int, root as int));
        }
    }
}

/// The kept part of a sequence is never longer than the sequence.
proof fn lemma_keep_only_len<Name>(s: Seq<TreeV<Name>>, num: int, den: int, root: int)
    ensures
        keep_only(s, num, den, root).len() <= s.len(),
    decreases s.len(),
{
    if s.len() > 0 {
        lemma_keep_only_len(s.drop_last(), num, den, root);
    }
}

/// Every member of `keep_only(s, ...)` is a member of `s`.
proof fn lemma_keep_only_members<Name>(s: Seq<TreeV<Name>>, num: int, den: int, root: int, i: int)
    requires
        0 <= i < keep_only(s, num, den, root).len(),
    ensures
        exists|k: int| 0 <= k < s.len() && s[k] == keep_only(s, num, den, root)[i],
    decreases s.len(),
{
    if s.len() > 0 {
        let rest = keep_only(s.drop_last(), num, den, root);
        if keep_child(s.last(), num, den, root) && i == rest.len() {
            assert(s[s.len() - 1] == keep_only(s, num, den, root)[i]);
        } else {
            lemma_keep_only_members(s.drop_last(), num, den, root, i);
            let k = choose|k: int|
                0 <= k < s.drop_last().len() && s.drop_last()[k] == keep_only(
                    s.drop_last(),
                    num,
                    den,
                    root,
                )[i];
            assert(s[k] == keep_only(s, num, den, root)[i]);
        }
    }
}

} // verus!
