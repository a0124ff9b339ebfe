use vstd::prelude::*;

use crate::error::SampleError;

verus! {

// ------------------------------------------------------------------
// Data model
// ------------------------------------------------------------------

/// One image record of the dataset: an id and the file it decodes from.
#[derive(Debug)]
pub struct Image {
    pub id: String,
    pub file_name: String,
}

/// Spec-level shape of an [`Image`].
#[verifier::ext_equal]
pub ghost struct ImageView {
    pub id: Seq<char>,
    pub file_name: Seq<char>,
}

impl View for Image {
    type V = ImageView;

    open spec fn view(&self) -> ImageView {
        ImageView { id: self.id@, file_name: self.file_name@ }
    }
}

impl DeepView for Image {
    type V = ImageView;

    open spec fn deep_view(&self) -> ImageView {
        self@
    }
}

impl Clone for Image {
    fn clone(&self) -> (r: Image)
        ensures
            r@ == self@,
    {
        Image { id: self.id.clone(), file_name: self.file_name.clone() }
    }
}

/// An axis-aligned bounding box in whole pixel units: top-left corner and
/// size. The dataset stores fractional coordinates; their fractional parts
/// are discarded (not rounded) before they reach this type.
#[derive(Clone, Copy, Debug, PartialEq, Eq, Structural)]
pub struct Bbox {
    pub x: u32,
    pub y: u32,
    pub w: u32,
    pub h: u32,
}

/// One bounding-box annotation: its own id, the category it labels, the id
/// of the image it lies in, and the box itself.
#[derive(Debug)]
pub struct Annotation {
    pub id: String,
    pub category_id: u32,
    pub image_id: String,
    pub bbox: Bbox,
}

/// Spec-level shape of an [`Annotation`].
#[verifier::ext_equal]
pub ghost struct AnnotationView {
    pub id: Seq<char>,
    pub category_id: u32,
    pub image_id: Seq<char>,
    pub bbox: Bbox,
}

impl View for Annotation {
    type V = AnnotationView;

    open spec fn view(&self) -> AnnotationView {
        AnnotationView {
            id: self.id@,
            category_id: self.category_id,
            image_id: self.image_id@,
            bbox: self.bbox,
        }
    }
}

impl DeepView for Annotation {
    type V = AnnotationView;

    open spec fn deep_view(&self) -> AnnotationView {
        self@
    }
}

impl Clone for Annotation {
    fn clone(&self) -> (r: Annotation)
        ensures
            r@ == self@,
    {
        Annotation {
            id: self.id.clone(),
            category_id: self.category_id,
            image_id: self.image_id.clone(),
            bbox: self.bbox,
        }
    }
}

/// One category record: label metadata, not used in pixel computation.
#[derive(Debug)]
pub struct Category {
    pub id: u32,
    pub name: String,
}

/// Spec-level shape of a [`Category`].
#[verifier::ext_equal]
pub ghost struct CategoryView {
    pub id: u32,
    pub name: Seq<char>,
}

impl View for Category {
    type V = CategoryView;

    open spec fn view(&self) -> CategoryView {
        CategoryView { id: self.id, name: self.name@ }
    }
}

impl DeepView for Category {
    type V = CategoryView;

    open spec fn deep_view(&self) -> CategoryView {
        self@
    }
}

impl Clone for Category {
    fn clone(&self) -> (r: Category)
        ensures
            r@ == self@,
    {
        Category { id: self.id, name: self.name.clone() }
    }
}

/// The three flat lists of a COCO-style dataset, as the loader hands them
/// over and before any indexing.
#[derive(Debug)]
pub struct Coco {
    pub images: Vec<Image>,
    pub annotations: Vec<Annotation>,
    pub categories: Vec<Category>,
}

impl Coco {
    /// An empty dataset, ready to be filled by a loader.
    pub fn new() -> (c: Coco)
        ensures
            c.images@.len() == 0,
            c.annotations@.len() == 0,
            c.categories@.len() == 0,
    {
        Coco { images: Vec::new(), annotations: Vec::new(), categories: Vec::new() }
    }
}

// ------------------------------------------------------------------
// First-match lookup semantics
// ------------------------------------------------------------------

/// The first element of `s` satisfying `pred`, if any. All lookups of the
/// index resolve ids this way: when a source list repeats an id, the first
/// occurrence wins and later ones are invisible to the lookup.
pub open spec fn first_match<A>(s: Seq<A>, pred: spec_fn(A) -> bool) -> Option<A>
    decreases s.len(),
{
    if s.len() == 0 {
        None
    } else if pred(s[0]) {
        Some(s[0])
    } else {
        first_match(s.drop_first(), pred)
    }
}

/// If `s[k]` matches and nothing before it does, the first match is `s[k]`.
pub proof fn lemma_first_match_found<A>(s: Seq<A>, pred: spec_fn(A) -> bool, k: int)
    requires
        0 <= k < s.len(),
        pred(s[k]),
        forall|j: int| 0 <= j < k ==> !pred(s[j]),
    ensures
        first_match(s, pred) == Some(s[k]),
    decreases k,
{
    if k > 0 {
        assert(!pred(s[0]));
        assert forall|j: int| 0 <= j < k - 1 implies !pred(s.drop_first()[j]) by {
            assert(s.drop_first()[j] == s[j + 1]);
        }
        assert(s.drop_first()[k - 1] == s[k]);
        lemma_first_match_found(s.drop_first(), pred, k - 1);
    }
}

/// There is no first match exactly when no element matches.
pub proof fn lemma_first_match_none<A>(s: Seq<A>, pred: spec_fn(A) -> bool)
    ensures
        (first_match(s, pred) is None) <==> (forall|j: int| 0 <= j < s.len() ==> !pred(s[j])),
    decreases s.len(),
{
    if s.len() > 0 {
        lemma_first_match_none(s.drop_first(), pred);
        assert forall|j: int| 0 <= j < s.drop_first().len() implies s.drop_first()[j] == s[j + 1] by {}
        if first_match(s, pred) is None {
            assert forall|j: int| 0 <= j < s.len() implies !pred(s[j]) by {
                if j > 0 {
                    assert(s.drop_first()[j - 1] == s[j]);
                }
            }
        }
    }
}

/// A first match, when it exists, sits at a well-defined index: everything
/// before that index fails the predicate.
pub proof fn lemma_first_match_index<A>(s: Seq<A>, pred: spec_fn(A) -> bool)
    requires
        first_match(s, pred) is Some,
    ensures
        exists|k: int|
            0 <= k < s.len() && pred(#[trigger] s[k]) && first_match(s, pred) == Some(s[k]) && (
            forall|j: int| 0 <= j < k ==> !pred(s[j])),
    decreases s.len(),
{
    if pred(s[0]) {
        assert(0 <= 0 < s.len() && pred(s[0]) && first_match(s, pred) == Some(s[0]) && (forall|
            j: int,
        | 0 <= j < 0 ==> !pred(s[j])));
    } else {
        lemma_first_match_index(s.drop_first(), pred);
        let k0 = choose|k0: int|
            0 <= k0 < s.drop_first().len() && pred(#[trigger] s.drop_first()[k0]) && first_match(
                s.drop_first(),
                pred,
            ) == Some(s.drop_first()[k0]) && (forall|j: int|
                0 <= j < k0 ==> !pred(s.drop_first()[j]));
        assert(s.drop_first()[k0] == s[k0 + 1]);
        assert forall|j: int| 0 <= j < k0 + 1 implies !pred(s[j]) by {
            if j > 0 {
                assert(s.drop_first()[j - 1] == s[j]);
            }
        }
        assert(0 <= k0 + 1 < s.len() && pred(s[k0 + 1]) && first_match(s, pred) == Some(
            s[k0 + 1],
        ) && (forall|j: int| 0 <= j < k0 + 1 ==> !pred(s[j])));
    }
}

/// Two sequences that agree pointwise on the predicate, and agree on every
/// matching element, have the same first match.
pub proof fn lemma_first_match_same<A>(s: Seq<A>, t: Seq<A>, pred: spec_fn(A) -> bool)
    requires
        s.len() == t.len(),
        forall|j: int| 0 <= j < s.len() ==> pred(#[trigger] s[j]) == pred(#[trigger] t[j]),
        forall|j: int| 0 <= j < s.len() && pred(#[trigger] s[j]) ==> s[j] == t[j],
    ensures
        first_match(s, pred) == first_match(t, pred),
    decreases s.len(),
{
    if s.len() > 0 && !pred(s[0]) {
        assert forall|j: int| 0 <= j < s.drop_first().len() implies pred(
            #[trigger] s.drop_first()[j],
        ) == pred(#[trigger] t.drop_first()[j]) && (pred(s.drop_first()[j]) ==> s.drop_first()[j]
            == t.drop_first()[j]) by {
            assert(s.drop_first()[j] == s[j + 1]);
            assert(t.drop_first()[j] == t[j + 1]);
        }
        lemma_first_match_same(s.drop_first(), t.drop_first(), pred);
    }
}

/// How a first match evolves when one element is appended: an earlier match
/// stays, else the new element is consulted.
pub proof fn lemma_first_match_push<A>(s: Seq<A>, pred: spec_fn(A) -> bool, a: A)
    ensures
        first_match(s.push(a), pred) == (if first_match(s, pred) is Some {
            first_match(s, pred)
        } else if pred(a) {
            Some(a)
        } else {
            None::<A>
        }),
    decreases s.len(),
{
    if s.len() == 0 {
        assert(s.push(a)[0] == a);
        assert(s.push(a).drop_first() =~= Seq::<A>::empty());
        assert(first_match(Seq::<A>::empty(), pred) is None);
        assert(first_match(s, pred) is None);
        if !pred(a) {
            assert(first_match(s.push(a), pred) == first_match(s.push(a).drop_first(), pred));
        }
    } else {
        assert(s.push(a)[0] == s[0]);
        assert(s.push(a).drop_first() =~= s.drop_first().push(a));
        lemma_first_match_push(s.drop_first(), pred, a);
        if pred(s[0]) {
            assert(first_match(s.push(a), pred) == Some(s[0]));
            assert(first_match(s, pred) == Some(s[0]));
        } else {
            assert(first_match(s.push(a), pred) == first_match(s.drop_first().push(a), pred));
            assert(first_match(s, pred) == first_match(s.drop_first(), pred));
        }
    }
}

// ------------------------------------------------------------------
// Lookup tables as specifications
// ------------------------------------------------------------------

/// The image that id `id` resolves to: the first occurrence in `s`.
pub open spec fn image_with_id(s: Seq<ImageView>, id: Seq<char>) -> Option<ImageView> {
    first_match(s, |im: ImageView| im.id == id)
}

/// The annotation that id `id` resolves to: the first occurrence in `s`.
pub open spec fn annotation_with_id(s: Seq<AnnotationView>, id: Seq<char>) -> Option<
    AnnotationView,
> {
    first_match(s, |a: AnnotationView| a.id == id)
}

/// The category that id `id` resolves to: the first occurrence in `s`.
pub open spec fn category_with_id(s: Seq<CategoryView>, id: u32) -> Option<CategoryView> {
    first_match(s, |c: CategoryView| c.id == id)
}

/// The group of annotations keyed by image id `id`, if one exists.
pub open spec fn group_with_id(gs: Seq<GroupView>, id: Seq<char>) -> Option<GroupView> {
    first_match(gs, |g: GroupView| g.image_id == id)
}

/// The annotations of `s` that reference image `id`, in input order. Unlike
/// the id lookups, this keeps every occurrence, duplicated ids included.
pub open spec fn annotations_of(s: Seq<AnnotationView>, id: Seq<char>) -> Seq<AnnotationView> {
    s.filter(|a: AnnotationView| a.image_id == id)
}

/// What the grouped table maps `id` to: its group's annotation list, or the
/// empty sequence when no group carries that image id.
pub open spec fn grouped_annotations(gs: Seq<GroupView>, id: Seq<char>) -> Seq<AnnotationView> {
    match group_with_id(gs, id) {
        Some(g) => g.annotations,
        None => Seq::empty(),
    }
}

/// No two images of `s` share an id.
pub open spec fn unique_image_ids(s: Seq<ImageView>) -> bool {
    forall|j1: int, j2: int| 0 <= j1 < j2 < s.len() ==> #[trigger] s[j1].id != #[trigger] s[j2].id
}

/// No two annotations of `s` share an id.
pub open spec fn unique_annotation_ids(s: Seq<AnnotationView>) -> bool {
    forall|j1: int, j2: int| 0 <= j1 < j2 < s.len() ==> #[trigger] s[j1].id != #[trigger] s[j2].id
}

/// No two categories of `s` share an id.
pub open spec fn unique_category_ids(s: Seq<CategoryView>) -> bool {
    forall|j1: int, j2: int| 0 <= j1 < j2 < s.len() ==> #[trigger] s[j1].id != #[trigger] s[j2].id
}

/// No two groups of `gs` share an image id.
pub open spec fn unique_group_ids(gs: Seq<GroupView>) -> bool {
    forall|j1: int, j2: int|
        0 <= j1 < j2 < gs.len() ==> #[trigger] gs[j1].image_id != #[trigger] gs[j2].image_id
}

/// Appending one annotation extends exactly the filter of its own image id.
pub proof fn lemma_annotations_of_push(s: Seq<AnnotationView>, a: AnnotationView, d: Seq<char>)
    ensures
        annotations_of(s.push(a), d) == (if a.image_id == d {
            annotations_of(s, d).push(a)
        } else {
            annotations_of(s, d)
        }),
{
    reveal_with_fuel(Seq::<_>::filter, 2);
    assert(s.push(a).drop_last() =~= s);
    assert(s.push(a).last() == a);
}

// ------------------------------------------------------------------
// The index
// ------------------------------------------------------------------

/// All annotations that share one image id, in input order.
#[derive(Debug)]
pub struct AnnotationGroup {
    pub image_id: String,
    pub annotations: Vec<Annotation>,
}

/// Spec-level shape of an [`AnnotationGroup`].
#[verifier::ext_equal]
pub ghost struct GroupView {
    pub image_id: Seq<char>,
    pub annotations: Seq<AnnotationView>,
}

impl DeepView for AnnotationGroup {
    type V = GroupView;

    open spec fn deep_view(&self) -> GroupView {
        GroupView { image_id: self.image_id@, annotations: self.annotations.deep_view() }
    }
}

/// Read-only lookup tables built once from the three flat lists: image id to
/// image, annotation id to annotation, image id to its annotations in input
/// order, and category id to category. Repeated ids keep their first
/// occurrence only, except in the per-image grouping, which keeps every
/// annotation.
#[derive(Debug)]
pub struct CocoIndex {
    pub images: Vec<Image>,
    pub annotations: Vec<Annotation>,
    pub annotations_by_image_id: Vec<AnnotationGroup>,
    pub categories: Vec<Category>,
}

/// The grouped table after appending annotation `a` to its existing group at
/// index `k`.
spec fn group_appended(gs: Seq<GroupView>, k: int, a: AnnotationView) -> Seq<GroupView>
    recommends
        0 <= k < gs.len(),
{
    gs.update(k, GroupView { image_id: gs[k].image_id, annotations: gs[k].annotations.push(a) })
}

/// The fresh group holding only annotation `a`.
spec fn group_singleton(a: AnnotationView) -> GroupView {
    GroupView { image_id: a.image_id, annotations: seq![a] }
}

proof fn lemma_group_append_existing(
    gs: Seq<GroupView>,
    k: int,
    a: AnnotationView,
    pref: Seq<AnnotationView>,
)
    requires
        unique_group_ids(gs),
        0 <= k < gs.len(),
        gs[k].image_id == a.image_id,
        forall|j: int| 0 <= j < k ==> #[trigger] gs[j].image_id != a.image_id,
        forall|d: Seq<char>| grouped_annotations(gs, d) == annotations_of(pref, d),
    ensures
        unique_group_ids(group_appended(gs, k, a)),
        forall|d: Seq<char>|
            grouped_annotations(group_appended(gs, k, a), d) == annotations_of(pref.push(a), d),
{
    let new_gs = group_appended(gs, k, a);
    assert(forall|j: int| 0 <= j < gs.len() ==> #[trigger] new_gs[j].image_id == gs[j].image_id);
    assert forall|d: Seq<char>|
        grouped_annotations(new_gs, d) == annotations_of(pref.push(a), d) by {
        let pd = |g: GroupView| g.image_id == d;
        lemma_annotations_of_push(pref, a, d);
        if d == a.image_id {
            lemma_first_match_found(gs, pd, k);
            lemma_first_match_found(new_gs, pd, k);
        } else {
            assert forall|j: int| 0 <= j < gs.len() implies pred_same_at(gs, new_gs, d, j) by {
                assert(new_gs[j].image_id == gs[j].image_id);
                if gs[j].image_id == d {
                    assert(j != k);
                    assert(new_gs[j] == gs[j]);
                }
            }
            lemma_first_match_same(gs, new_gs, pd);
        }
    }
}

/// Pointwise agreement of two group tables at one index, for one lookup id.
spec fn pred_same_at(gs: Seq<GroupView>, hs: Seq<GroupView>, d: Seq<char>, j: int) -> bool {
    (gs[j].image_id == d) == (hs[j].image_id == d) && (gs[j].image_id == d ==> gs[j] == hs[j])
}

proof fn lemma_group_push_new(gs: Seq<GroupView>, a: AnnotationView, pref: Seq<AnnotationView>)
    requires
        unique_group_ids(gs),
        forall|j: int| 0 <= j < gs.len() ==> #[trigger] gs[j].image_id != a.image_id,
        forall|d: Seq<char>| grouped_annotations(gs, d) == annotations_of(pref, d),
    ensures
        unique_group_ids(gs.push(group_singleton(a))),
        forall|d: Seq<char>|
            grouped_annotations(gs.push(group_singleton(a)), d) == annotations_of(
                pref.push(a),
                d,
            ),
{
    let g0 = group_singleton(a);
    let new_gs = gs.push(g0);
    assert(forall|j: int| 0 <= j < gs.len() ==> #[trigger] new_gs[j] == gs[j]);
    assert(new_gs[gs.len() as int] == g0);
    assert forall|d: Seq<char>|
        grouped_annotations(new_gs, d) == annotations_of(pref.push(a), d) by {
        let pd = |g: GroupView| g.image_id == d;
        lemma_annotations_of_push(pref, a, d);
        lemma_first_match_push(gs, pd, g0);
        if d == a.image_id {
            lemma_first_match_none(gs, pd);
            assert(Seq::<AnnotationView>::empty().push(a) =~= seq![a]);
        }
    }
}

// Linear searches used both by the builder (to detect duplicate ids) and by
// the public lookups.

fn contains_image_id(v: &Vec<Image>, id: &String) -> (found: bool)
    ensures
        found == (image_with_id(v.deep_view(), id@) is Some),
{
    let mut k: usize = 0;
    while k < v.len()
        invariant
            k <= v@.len(),
            forall|j: int| 0 <= j < k ==> #[trigger] v.deep_view()[j].id != id@,
        decreases v@.len() - k,
    {
        if v[k].id == *id {
            proof {
                lemma_first_match_found(v.deep_view(), |im: ImageView| im.id == id@, k as int);
            }
            return true;
        }
        k = k + 1;
    }
    proof {
        lemma_first_match_none(v.deep_view(), |im: ImageView| im.id == id@);
    }
    false
}

fn contains_annotation_id(v: &Vec<Annotation>, id: &String) -> (found: bool)
    ensures
        found == (annotation_with_id(v.deep_view(), id@) is Some),
{
    let mut k: usize = 0;
    while k < v.len()
        invariant
            k <= v@.len(),
            forall|j: int| 0 <= j < k ==> #[trigger] v.deep_view()[j].id != id@,
        decreases v@.len() - k,
    {
        if v[k].id == *id {
            proof {
                lemma_first_match_found(v.deep_view(), |a: AnnotationView| a.id == id@, k as int);
            }
            return true;
        }
        k = k + 1;
    }
    proof {
        lemma_first_match_none(v.deep_view(), |a: AnnotationView| a.id == id@);
    }
    false
}

fn contains_category_id(v: &Vec<Category>, id: u32) -> (found: bool)
    ensures
        found == (category_with_id(v.deep_view(), id) is Some),
{
    let mut k: usize = 0;
    while k < v.len()
        invariant
            k <= v@.len(),
            forall|j: int| 0 <= j < k ==> #[trigger] v.deep_view()[j].id != id,
        decreases v@.len() - k,
    {
        if v[k].id == id {
            proof {
                lemma_first_match_found(v.deep_view(), |c: CategoryView| c.id == id, k as int);
            }
            return true;
        }
        k = k + 1;
    }
    proof {
        lemma_first_match_none(v.deep_view(), |c: CategoryView| c.id == id);
    }
    false
}

fn find_group(groups: &Vec<AnnotationGroup>, id: &String) -> (res: Option<usize>)
    ensures
        match res {
            Some(k) => k < groups@.len() && groups.deep_view()[k as int].image_id == id@ && (forall|
                j: int,
            | 0 <= j < k ==> #[trigger] groups.deep_view()[j].image_id != id@),
            None => forall|j: int|
                0 <= j < groups@.len() ==> #[trigger] groups.deep_view()[j].image_id != id@,
        },
{
    let mut k: usize = 0;
    while k < groups.len()
        invariant
            k <= groups@.len(),
            forall|j: int| 0 <= j < k ==> #[trigger] groups.deep_view()[j].image_id != id@,
        decreases groups@.len() - k,
    {
        if groups[k].image_id == *id {
            return Some(k);
        }
        k = k + 1;
    }
    None
}

impl CocoIndex {
    /// Builds the four lookup tables from the flat lists. For each of the
    /// three id-keyed tables the first occurrence of an id wins and later
    /// duplicates are dropped; the per-image grouping instead keeps every
    /// annotation, in input order.
    pub fn new(coco: &Coco) -> (idx: CocoIndex)
        ensures
            forall|d: Seq<char>|
                image_with_id(idx.images.deep_view(), d) == image_with_id(
                    coco.images.deep_view(),
                    d,
                ),
            forall|d: Seq<char>|
                annotation_with_id(idx.annotations.deep_view(), d) == annotation_with_id(
                    coco.annotations.deep_view(),
                    d,
                ),
            forall|c: u32|
                category_with_id(idx.categories.deep_view(), c) == category_with_id(
                    coco.categories.deep_view(),
                    c,
                ),
            forall|d: Seq<char>|
                grouped_annotations(idx.annotations_by_image_id.deep_view(), d) == annotations_of(
                    coco.annotations.deep_view(),
                    d,
                ),
            unique_image_ids(idx.images.deep_view()),
            unique_annotation_ids(idx.annotations.deep_view()),
            unique_category_ids(idx.categories.deep_view()),
            unique_group_ids(idx.annotations_by_image_id.deep_view()),
    {
        let ghost src_im = coco.images.deep_view();
        let mut images: Vec<Image> = Vec::new();
        for i in 0..coco.images.len()
            invariant
                src_im == coco.images.deep_view(),
                unique_image_ids(images.deep_view()),
                forall|d: Seq<char>|
                    image_with_id(images.deep_view(), d) == image_with_id(
                        src_im.take(i as int),
                        d,
                    ),
        {
            let im = &coco.images[i];
            let ghost old_dv = images.deep_view();
            let ghost cur = src_im[i as int];
            proof {
                assert(src_im.take(i as int + 1) =~= src_im.take(i as int).push(cur));
            }
            let dup = contains_image_id(&images, &im.id);
            if !dup {
                images.push(im.clone());
                proof {
                    assert(images.deep_view() =~= old_dv.push(cur));
                    lemma_first_match_none(old_dv, |im: ImageView| im.id == cur.id);
                }
            }
            proof {
                assert forall|d: Seq<char>|
                    image_with_id(images.deep_view(), d) == image_with_id(
                        src_im.take(i as int + 1),
                        d,
                    ) by {
                    assert(image_with_id(old_dv, d) == image_with_id(src_im.take(i as int), d));
                    lemma_first_match_push(old_dv, |im: ImageView| im.id == d, cur);
                    lemma_first_match_push(
                        src_im.take(i as int),
                        |im: ImageView| im.id == d,
                        cur,
                    );
                }
            }
        }
        proof {
            assert(src_im.take(coco.images@.len() as int) =~= src_im);
        }

        let ghost src_an = coco.annotations.deep_view();
        let mut annotations: Vec<Annotation> = Vec::new();
        let mut annotations_by_image_id: Vec<AnnotationGroup> = Vec::new();
        for i in 0..coco.annotations.len()
            invariant
                src_an == coco.annotations.deep_view(),
                unique_annotation_ids(annotations.deep_view()),
                unique_group_ids(annotations_by_image_id.deep_view()),
                forall|d: Seq<char>|
                    annotation_with_id(annotations.deep_view(), d) == annotation_with_id(
                        src_an.take(i as int),
                        d,
                    ),
                forall|d: Seq<char>|
                    grouped_annotations(annotations_by_image_id.deep_view(), d) == annotations_of(
                        src_an.take(i as int),
                        d,
                    ),
        {
            let a = &coco.annotations[i];
            let ghost old_dv = annotations.deep_view();
            let ghost old_gdv = annotations_by_image_id.deep_view();
            let ghost cur = src_an[i as int];
            proof {
                assert(src_an.take(i as int + 1) =~= src_an.take(i as int).push(cur));
            }

            let dup = contains_annotation_id(&annotations, &a.id);
            if !dup {
                annotations.push(a.clone());
                proof {
                    assert(annotations.deep_view() =~= old_dv.push(cur));
                    lemma_first_match_none(old_dv, |a: AnnotationView| a.id == cur.id);
                }
            }
            proof {
                assert forall|d: Seq<char>|
                    annotation_with_id(annotations.deep_view(), d) == annotation_with_id(
                        src_an.take(i as int + 1),
                        d,
                    ) by {
                    assert(annotation_with_id(old_dv, d) == annotation_with_id(
                        src_an.take(i as int),
                        d,
                    ));
                    lemma_first_match_push(old_dv, |a: AnnotationView| a.id == d, cur);
                    lemma_first_match_push(
                        src_an.take(i as int),
                        |a: AnnotationView| a.id == d,
                        cur,
                    );
                }
            }

            match find_group(&annotations_by_image_id, &a.image_id) {
                Some(k) => {
                    proof {
                        lemma_group_append_existing(
                            old_gdv,
                            k as int,
                            cur,
                            src_an.take(i as int),
                        );
                    }
                    let mut g = annotations_by_image_id.remove(k);
                    g.annotations.push(a.clone());
                    annotations_by_image_id.insert(k, g);
                    proof {
                        assert(annotations_by_image_id.deep_view() =~~= group_appended(
                            old_gdv,
                            k as int,
                            cur,
                        ));
                    }
                },
                None => {
                    proof {
                        lemma_group_push_new(old_gdv, cur, src_an.take(i as int));
                    }
                    let mut anns: Vec<Annotation> = Vec::new();
                    anns.push(a.clone());
                    let g = AnnotationGroup { image_id: a.image_id.clone(), annotations: anns };
                    annotations_by_image_id.push(g);
                    proof {
                        assert(annotations_by_image_id.deep_view() =~~= old_gdv.push(
                            group_singleton(cur),
                        ));
                    }
                },
            }
        }
        proof {
            assert(src_an.take(coco.annotations@.len() as int) =~= src_an);
        }

        let ghost src_ca = coco.categories.deep_view();
        let mut categories: Vec<Category> = Vec::new();
        for i in 0..coco.categories.len()
            invariant
                src_ca == coco.categories.deep_view(),
                unique_category_ids(categories.deep_view()),
                forall|c: u32|
                    category_with_id(categories.deep_view(), c) == category_with_id(
                        src_ca.take(i as int),
                        c,
                    ),
        {
            let ca = &coco.categories[i];
            let ghost old_dv = categories.deep_view();
            let ghost cur = src_ca[i as int];
            proof {
                assert(src_ca.take(i as int + 1) =~= src_ca.take(i as int).push(cur));
            }
            let dup = contains_category_id(&categories, ca.id);
            if !dup {
                categories.push(ca.clone());
                proof {
                    assert(categories.deep_view() =~= old_dv.push(cur));
                    lemma_first_match_none(old_dv, |c: CategoryView| c.id == cur.id);
                }
            }
            proof {
                assert forall|cid: u32|
                    category_with_id(categories.deep_view(), cid) == category_with_id(
                        src_ca.take(i as int + 1),
                        cid,
                    ) by {
                    assert(category_with_id(old_dv, cid) == category_with_id(
                        src_ca.take(i as int),
                        cid,
                    ));
                    lemma_first_match_push(old_dv, |c: CategoryView| c.id == cid, cur);
                    lemma_first_match_push(
                        src_ca.take(i as int),
                        |c: CategoryView| c.id == cid,
                        cur,
                    );
                }
            }
        }
        proof {
            assert(src_ca.take(coco.categories@.len() as int) =~= src_ca);
        }

        CocoIndex { images, annotations, annotations_by_image_id, categories }
    }

    /// Looks an image up by id. Returns the first occurrence, or `None` when
    /// the id is unknown.
    pub fn image_by_id(&self, id: &str) -> (res: Option<&Image>)
        ensures
            match res {
                Some(im) => image_with_id(self.images.deep_view(), id@) == Some(im.deep_view()),
                None => image_with_id(self.images.deep_view(), id@) is None,
            },
    {
        let key: String = id.to_owned();
        let mut k: usize = 0;
        while k < self.images.len()
            invariant
                k <= self.images@.len(),
                key@ == id@,
                forall|j: int| 0 <= j < k ==> #[trigger] self.images.deep_view()[j].id != id@,
            decreases self.images@.len() - k,
        {
            let im = &self.images[k];
            if im.id == key {
                proof {
                    lemma_first_match_found(
                        self.images.deep_view(),
                        |im: ImageView| im.id == id@,
                        k as int,
                    );
                }
                return Some(im);
            }
            k = k + 1;
        }
        proof {
            lemma_first_match_none(self.images.deep_view(), |im: ImageView| im.id == id@);
        }
        None
    }

    /// Looks an annotation up by id. Returns the first occurrence, or `None`
    /// when the id is unknown.
    pub fn annotation_by_id(&self, id: &str) -> (res: Option<&Annotation>)
        ensures
            match res {
                Some(a) => annotation_with_id(self.annotations.deep_view(), id@) == Some(
                    a.deep_view(),
                ),
                None => annotation_with_id(self.annotations.deep_view(), id@) is None,
            },
    {
        let key: String = id.to_owned();
        let mut k: usize = 0;
        while k < self.annotations.len()
            invariant
                k <= self.annotations@.len(),
                key@ == id@,
                forall|j: int| 0 <= j < k ==> #[trigger] self.annotations.deep_view()[j].id != id@,
            decreases self.annotations@.len() - k,
        {
            let a = &self.annotations[k];
            if a.id == key {
                proof {
                    lemma_first_match_found(
                        self.annotations.deep_view(),
                        |a: AnnotationView| a.id == id@,
                        k as int,
                    );
                }
                return Some(a);
            }
            k = k + 1;
        }
        proof {
            lemma_first_match_none(self.annotations.deep_view(), |a: AnnotationView| a.id == id@);
        }
        None
    }

    /// Looks a category up by id. Returns the first occurrence, or `None`
    /// when the id is unknown.
    pub fn category_by_id(&self, id: u32) -> (res: Option<&Category>)
        ensures
            match res {
                Some(c) => category_with_id(self.categories.deep_view(), id) == Some(c.deep_view()),
                None => category_with_id(self.categories.deep_view(), id) is None,
            },
    {
        let mut k: usize = 0;
        while k < self.categories.len()
            invariant
                k <= self.categories@.len(),
                forall|j: int| 0 <= j < k ==> #[trigger] self.categories.deep_view()[j].id != id,
            decreases self.categories@.len() - k,
        {
            let c = &self.categories[k];
            if c.id == id {
                proof {
                    lemma_first_match_found(
                        self.categories.deep_view(),
                        |c: CategoryView| c.id == id,
                        k as int,
                    );
                }
                return Some(c);
            }
            k = k + 1;
        }
        proof {
            lemma_first_match_none(self.categories.deep_view(), |c: CategoryView| c.id == id);
        }
        None
    }

    /// The annotations referencing image `image_id`, in input order, or
    /// `None` when no annotation references it.
    pub fn annotations_for_image(&self, image_id: &str) -> (res: Option<&Vec<Annotation>>)
        ensures
            match res {
                Some(anns) => group_with_id(self.annotations_by_image_id.deep_view(), image_id@)
                    is Some && anns.deep_view() == grouped_annotations(
                    self.annotations_by_image_id.deep_view(),
                    image_id@,
                ),
                None => group_with_id(self.annotations_by_image_id.deep_view(), image_id@) is None,
            },
    {
        let key: String = image_id.to_owned();
        match find_group(&self.annotations_by_image_id, &key) {
            Some(k) => {
                proof {
                    lemma_first_match_found(
                        self.annotations_by_image_id.deep_view(),
                        |g: GroupView| g.image_id == image_id@,
                        k as int,
                    );
                }
                Some(&self.annotations_by_image_id[k].annotations)
            },
            None => {
                proof {
                    lemma_first_match_none(
                        self.annotations_by_image_id.deep_view(),
                        |g: GroupView| g.image_id == image_id@,
                    );
                }
                None
            },
        }
    }

    /// Resolves the image an annotation references. An unknown image id is
    /// the fatal `MissingImage` condition: without the image there is
    /// nothing to sample.
    pub fn image_for_annotation<'a>(&'a self, a: &Annotation) -> (res: Result<
        &'a Image,
        SampleError,
    >)
        ensures
            match res {
                Ok(im) => image_with_id(self.images.deep_view(), a.image_id@) == Some(
                    im.deep_view(),
                ),
                Err(e) => e == SampleError::MissingImage && image_with_id(
                    self.images.deep_view(),
                    a.image_id@,
                ) is None,
            },
    {
        match self.image_by_id(a.image_id.as_str()) {
            Some(im) => Ok(im),
            None => Err(SampleError::MissingImage),
        }
    }
}

// ------------------------------------------------------------------
// The duplicate-id law
// ------------------------------------------------------------------

/// Law: a later annotation that reuses an earlier annotation's id is
/// invisible to the id lookup, yet still counted by the per-image grouping.
/// Removing the later duplicate leaves the lookup of that id unchanged,
/// while it shortens the annotation list of its image by exactly one.
pub proof fn lemma_duplicate_id_asymmetry(s: Seq<AnnotationView>, i: int, j: int)
    requires
        0 <= i < j < s.len(),
        s[i].id == s[j].id,
    ensures
        annotation_with_id(s, s[j].id) == annotation_with_id(s.remove(j), s[j].id),
        annotations_of(s, s[j].image_id).len() == annotations_of(s.remove(j), s[j].image_id).len()
            + 1,
{
    let d = s[j].id;
    let pd = |a: AnnotationView| a.id == d;
    lemma_first_match_none(s, pd);
    assert(pd(s[i]));
    assert(first_match(s, pd) is Some);
    lemma_first_match_index(s, pd);
    let k = choose|k: int|
        0 <= k < s.len() && pd(#[trigger] s[k]) && first_match(s, pd) == Some(s[k]) && (forall|
            j2: int,
        | 0 <= j2 < k ==> !pd(s[j2]));
    assert(k <= i) by {
        if k > i {
            assert(!pd(s[i]));
        }
    }
    assert(s.remove(j)[k] == s[k]);
    assert forall|j2: int| 0 <= j2 < k implies !pd(s.remove(j)[j2]) by {
        assert(s.remove(j)[j2] == s[j2]);
    }
    lemma_first_match_found(s.remove(j), pd, k);

    let e = s[j].image_id;
    let pe = |a: AnnotationView| a.image_id == e;
    let fore = s.take(j);
    let mid = seq![s[j]];
    let aft = s.skip(j + 1);
    assert(s =~= fore + mid + aft);
    assert(s.remove(j) =~= fore + aft);
    Seq::filter_distributes_over_add(fore + mid, aft, pe);
    Seq::filter_distributes_over_add(fore, mid, pe);
    Seq::filter_distributes_over_add(fore, aft, pe);
    assert(mid.filter(pe) =~= seq![s[j]]) by {
        reveal_with_fuel(Seq::<_>::filter, 3);
        assert(pe(s[j]));
        assert(mid.drop_last() =~= Seq::<AnnotationView>::empty());
    }
}

} // verus!
