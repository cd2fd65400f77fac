use vstd::prelude::*;

verus! {

/// What a Windows path prefix means, as `std::path::Prefix` parses it; texts
/// are kept as their raw encoded bytes.
#[derive(Debug, PartialEq, Eq)]
pub enum PrefixKind {
    /// `\\?\text`
    Verbatim(Vec<u8>),
    /// `\\?\UNC\server\share`
    VerbatimUnc(Vec<u8>, Vec<u8>),
    /// `\\?\C:`
    VerbatimDisk(u8),
    /// `\\.\device`
    DeviceNs(Vec<u8>),
    /// `\\server\share`
    Unc(Vec<u8>, Vec<u8>),
    /// `C:`
    Disk(u8),
}

/// A prefix's meaning over plain values.
pub enum PrefixModel {
    Verbatim(Seq<u8>),
    VerbatimUnc(Seq<u8>, Seq<u8>),
    VerbatimDisk(u8),
    DeviceNs(Seq<u8>),
    Unc(Seq<u8>, Seq<u8>),
    Disk(u8),
}

impl View for PrefixKind {
    type V = PrefixModel;

    open spec fn view(&self) -> PrefixModel {
        match self {
            PrefixKind::Verbatim(a) => PrefixModel::Verbatim(a@),
            PrefixKind::VerbatimUnc(a, b) => PrefixModel::VerbatimUnc(a@, b@),
            PrefixKind::VerbatimDisk(d) => PrefixModel::VerbatimDisk(*d),
            PrefixKind::DeviceNs(a) => PrefixModel::DeviceNs(a@),
            PrefixKind::Unc(a, b) => PrefixModel::Unc(a@, b@),
            PrefixKind::Disk(d) => PrefixModel::Disk(*d),
        }
    }
}

/// One component of a path, as `std::path::Path::components` yields it; the
/// text of a prefix or of a normal component is kept as its raw encoded bytes,
/// and a prefix also by what it means.
#[derive(Debug, PartialEq, Eq)]
pub enum PathComponent {
    Prefix { raw: Vec<u8>, kind: PrefixKind },
    RootDir,
    CurDir,
    ParentDir,
    Normal(Vec<u8>),
}

/// A path component over plain values.
pub enum ComponentModel {
    Prefix { raw: Seq<u8>, kind: PrefixModel },
    RootDir,
    CurDir,
    ParentDir,
    Normal(Seq<u8>),
}

impl View for PathComponent {
    type V = ComponentModel;

    open spec fn view(&self) -> ComponentModel {
        match self {
            PathComponent::Prefix { raw, kind } => ComponentModel::Prefix { raw: raw@, kind: kind@ },
            PathComponent::RootDir => ComponentModel::RootDir,
            PathComponent::CurDir => ComponentModel::CurDir,
            PathComponent::ParentDir => ComponentModel::ParentDir,
            PathComponent::Normal(b) => ComponentModel::Normal(b@),
        }
    }
}

impl DeepView for PathComponent {
    type V = ComponentModel;

    open spec fn deep_view(&self) -> ComponentModel {
        self@
    }
}

/// A drive letter in upper case.
pub open spec fn ascii_upper(b: u8) -> u8 {
    if 97 <= b && b <= 122 {
        (b - 32) as u8
    } else {
        b
    }
}

/// Whether two prefixes name the same thing: drive letters match whatever
/// their case (`c:` is drive `C:`), the rest by their text.
pub open spec fn same_prefix(a: PrefixModel, b: PrefixModel) -> bool {
    match (a, b) {
        (PrefixModel::Disk(x), PrefixModel::Disk(y)) => ascii_upper(x) == ascii_upper(y),
        (PrefixModel::VerbatimDisk(x), PrefixModel::VerbatimDisk(y)) => ascii_upper(x) == ascii_upper(y),
        _ => a == b,
    }
}

/// Whether two components are the same component: prefixes by what they mean,
/// the others by their kind and text.
pub open spec fn same_component_spec(a: ComponentModel, b: ComponentModel) -> bool {
    match (a, b) {
        (ComponentModel::Prefix { kind: x, .. }, ComponentModel::Prefix { kind: y, .. }) => same_prefix(x, y),
        _ => a == b,
    }
}

/// Components other than prefixes are the same only when they are equal:
/// two normal components only when their bytes are equal, so that no name is
/// taken for another that it begins with. Equal components are always the same.
pub proof fn law_same_component_is_equality_but_for_prefixes(a: ComponentModel, b: ComponentModel)
    ensures
        a == b ==> same_component_spec(a, b),
        !(a is Prefix && b is Prefix) ==> (same_component_spec(a, b) <==> a == b),
        (a is Normal && b is Normal && same_component_spec(a, b)) ==> a->Normal_0 == b->Normal_0,
{
}


pub open spec fn same_components(a: Seq<ComponentModel>, b: Seq<ComponentModel>) -> bool {
    a.len() == b.len() && forall|i: int| 0 <= i < a.len() ==> same_component_spec(#[trigger] a[i], b[i])
}

fn copy_bytes(b: &Vec<u8>) -> (r: Vec<u8>)
    ensures
        r@ == b@,
{
    let v = b.clone();
    assert(v@ =~= b@);
    v
}

fn copy_prefix_kind(k: &PrefixKind) -> (r: PrefixKind)
    ensures
        r@ == k@,
{
    match k {
        PrefixKind::Verbatim(a) => PrefixKind::Verbatim(copy_bytes(a)),
        PrefixKind::VerbatimUnc(a, b) => PrefixKind::VerbatimUnc(copy_bytes(a), copy_bytes(b)),
        PrefixKind::VerbatimDisk(d) => PrefixKind::VerbatimDisk(*d),
        PrefixKind::DeviceNs(a) => PrefixKind::DeviceNs(copy_bytes(a)),
        PrefixKind::Unc(a, b) => PrefixKind::Unc(copy_bytes(a), copy_bytes(b)),
        PrefixKind::Disk(d) => PrefixKind::Disk(*d),
    }
}

/// A copy of `c`.
pub fn copy_component(c: &PathComponent) -> (r: PathComponent)
    ensures
        r@ == c@,
{
    match c {
        PathComponent::Prefix { raw, kind } => PathComponent::Prefix {
            raw: copy_bytes(raw),
            kind: copy_prefix_kind(kind),
        },
        PathComponent::RootDir => PathComponent::RootDir,
        PathComponent::CurDir => PathComponent::CurDir,
        PathComponent::ParentDir => PathComponent::ParentDir,
        PathComponent::Normal(b) => PathComponent::Normal(copy_bytes(b)),
    }
}

/// Whether two byte strings are equal.
pub fn bytes_equal(a: &Vec<u8>, b: &Vec<u8>) -> (r: bool)
    ensures
        r == (a@ == b@),
{
    if a.len() != b.len() {
        return false;
    }
    let n = a.len();
    let mut i: usize = 0;
    while i < n
        invariant
            n == a.len(),
            n == b.len(),
            i <= n,
            forall|j: int| 0 <= j < i ==> a@[j] == b@[j],
        decreases n - i,
    {
        if a[i] != b[i] {
            return false;
        }
        i = i + 1;
    }
    assert(a@ =~= b@);
    true
}

fn upper_drive(b: u8) -> (r: u8)
    ensures
        r == ascii_upper(b),
{
    if 97 <= b && b <= 122 {
        b - 32
    } else {
        b
    }
}

/// Whether two prefixes name the same thing.
pub fn same_prefix_kind(a: &PrefixKind, b: &PrefixKind) -> (r: bool)
    ensures
        r == same_prefix(a@, b@),
{
    match (a, b) {
        (PrefixKind::Verbatim(x), PrefixKind::Verbatim(y)) => bytes_equal(x, y),
        (PrefixKind::VerbatimUnc(x1, x2), PrefixKind::VerbatimUnc(y1, y2)) => bytes_equal(x1, y1)
            && bytes_equal(x2, y2),
        (PrefixKind::VerbatimDisk(x), PrefixKind::VerbatimDisk(y)) => upper_drive(*x) == upper_drive(*y),
        (PrefixKind::DeviceNs(x), PrefixKind::DeviceNs(y)) => bytes_equal(x, y),
        (PrefixKind::Unc(x1, x2), PrefixKind::Unc(y1, y2)) => bytes_equal(x1, y1) && bytes_equal(x2, y2),
        (PrefixKind::Disk(x), PrefixKind::Disk(y)) => upper_drive(*x) == upper_drive(*y),
        _ => false,
    }
}

/// Whether two components are the same component: prefixes by what they mean
/// (drive letters whatever their case), the others by their kind and text.
pub fn same_component(a: &PathComponent, b: &PathComponent) -> (r: bool)
    ensures
        r == same_component_spec(a@, b@),
{
    match (a, b) {
        (PathComponent::Prefix { kind: x, .. }, PathComponent::Prefix { kind: y, .. }) => same_prefix_kind(x, y),
        (PathComponent::RootDir, PathComponent::RootDir) => true,
        (PathComponent::CurDir, PathComponent::CurDir) => true,
        (PathComponent::ParentDir, PathComponent::ParentDir) => true,
        (PathComponent::Normal(x), PathComponent::Normal(y)) => bytes_equal(x, y),
        _ => false,
    }
}

/// The first `m` components of `p`.
pub fn copy_prefix(p: &Vec<PathComponent>, m: usize) -> (r: Vec<PathComponent>)
    requires
        m <= p.len(),
    ensures
        r.deep_view() == p.deep_view().take(m as int),
{
    let mut r: Vec<PathComponent> = Vec::new();
    let mut i: usize = 0;
    while i < m
        invariant
            m <= p.len(),
            i <= m,
            r.deep_view() == p.deep_view().take(i as int),
        decreases m - i,
    {
        let ghost before = r.deep_view();
        r.push(copy_component(&p[i]));
        assert(r.deep_view() =~= before.push(p.deep_view()[i as int]));
        assert(p.deep_view().take(i + 1) =~= p.deep_view().take(i as int).push(p.deep_view()[i as int]));
        i = i + 1;
    }
    r
}

// ---------------------------------------------------------------------------
// Relative paths
// ---------------------------------------------------------------------------

/// `p` without its `.` components.
pub open spec fn drop_cur_dirs(p: Seq<ComponentModel>) -> Seq<ComponentModel>
    decreases p.len(),
{
    if p.len() == 0 {
        Seq::empty()
    } else {
        let rest = drop_cur_dirs(p.drop_last());
        if p.last() is CurDir {
            rest
        } else {
            rest.push(p.last())
        }
    }
}

/// A prefix (`C:`) or the root directory.
pub open spec fn is_anchor(c: ComponentModel) -> bool {
    c is Prefix || c is RootDir
}

/// The number of leading prefix and root components of `p`.
pub open spec fn anchor_len(p: Seq<ComponentModel>) -> nat
    decreases p.len(),
{
    if p.len() > 0 && is_anchor(p[0]) {
        1 + anchor_len(p.drop_first())
    } else {
        0
    }
}

/// The length of the longest common prefix of `a` and `b`, components
/// compared as `same_component_spec` does.
pub open spec fn common_len(a: Seq<ComponentModel>, b: Seq<ComponentModel>) -> nat
    decreases a.len(),
{
    if a.len() > 0 && b.len() > 0 && same_component_spec(a[0], b[0]) {
        1 + common_len(a.drop_first(), b.drop_first())
    } else {
        0
    }
}

/// One `..` for every normal component of `s`.
pub open spec fn parent_steps(s: Seq<ComponentModel>) -> Seq<ComponentModel>
    decreases s.len(),
{
    if s.len() == 0 {
        Seq::empty()
    } else {
        let rest = parent_steps(s.drop_last());
        if s.last() is Normal {
            rest.push(ComponentModel::ParentDir)
        } else {
            rest
        }
    }
}

/// The components that, pushed one by one onto an empty path, spell `path`
/// relative to `base`: none when the two are anchored differently (one absolute
/// and the other not, or on different prefixes, drive letters compared whatever
/// their case); else a `..` for each normal
/// component of `base` past the common part, then the rest of `path`. `.`
/// components are ignored.
pub open spec fn spec_path_relative_from(path: Seq<ComponentModel>, base: Seq<ComponentModel>) -> Option<Seq<ComponentModel>> {
    let p = drop_cur_dirs(path);
    let b = drop_cur_dirs(base);
    if !same_components(p.take(anchor_len(p) as int), b.take(anchor_len(b) as int)) {
        None
    } else {
        let k = common_len(p, b) as int;
        Some(parent_steps(b.skip(k)) + p.skip(k))
    }
}

pub proof fn lemma_anchor_len_unique(p: Seq<ComponentModel>, k: int)
    requires
        0 <= k <= p.len(),
        forall|j: int| 0 <= j < k ==> is_anchor(#[trigger] p[j]),
        k < p.len() ==> !is_anchor(p[k]),
    ensures
        anchor_len(p) == k,
    decreases p.len(),
{
    if k > 0 {
        assert forall|j: int| 0 <= j < k - 1 implies is_anchor(#[trigger] p.drop_first()[j]) by {
            assert(p.drop_first()[j] == p[j + 1]);
        }
        lemma_anchor_len_unique(p.drop_first(), k - 1);
    }
}

pub proof fn lemma_common_len_unique(a: Seq<ComponentModel>, b: Seq<ComponentModel>, k: int)
    requires
        0 <= k <= a.len(),
        k <= b.len(),
        forall|j: int| 0 <= j < k ==> same_component_spec(#[trigger] a[j], b[j]),
        k < a.len() && k < b.len() ==> !same_component_spec(a[k], b[k]),
    ensures
        common_len(a, b) == k,
    decreases a.len(),
{
    if k > 0 {
        assert forall|j: int| 0 <= j < k - 1 implies same_component_spec(
            #[trigger] a.drop_first()[j],
            b.drop_first()[j],
        ) by {
            assert(a.drop_first()[j] == a[j + 1]);
            assert(b.drop_first()[j] == b[j + 1]);
        }
        lemma_common_len_unique(a.drop_first(), b.drop_first(), k - 1);
    }
}

fn without_cur_dirs(p: &Vec<PathComponent>) -> (r: Vec<PathComponent>)
    ensures
        r.deep_view() == drop_cur_dirs(p.deep_view()),
{
    let ghost all = p.deep_view();
    let mut r: Vec<PathComponent> = Vec::new();
    let n = p.len();
    let mut i: usize = 0;
    assert(all.take(0) =~= Seq::<ComponentModel>::empty());
    assert(r.deep_view() =~= Seq::<ComponentModel>::empty());
    while i < n
        invariant
            n == p.len(),
            all == p.deep_view(),
            i <= n,
            r.deep_view() == drop_cur_dirs(all.take(i as int)),
        decreases n - i,
    {
        assert(all.take(i + 1).drop_last() =~= all.take(i as int));
        assert(all.take(i + 1).last() == all[i as int]);
        match &p[i] {
            PathComponent::CurDir => {},
            c => {
                let ghost before = r.deep_view();
                r.push(copy_component(c));
                assert(r.deep_view() =~= before.push(all[i as int]));
            },
        }
        i = i + 1;
    }
    assert(all.take(n as int) =~= all);
    r
}

fn count_anchor(p: &Vec<PathComponent>) -> (r: usize)
    ensures
        r == anchor_len(p.deep_view()),
        r <= p.len(),
{
    let n = p.len();
    let mut i: usize = 0;
    while i < n
        invariant
            n == p.len(),
            i <= n,
            forall|j: int| 0 <= j < i ==> is_anchor(#[trigger] p.deep_view()[j]),
        decreases n - i,
    {
        match &p[i] {
            PathComponent::Prefix { .. } => {},
            PathComponent::RootDir => {},
            _ => {
                proof {
                    lemma_anchor_len_unique(p.deep_view(), i as int);
                }
                return i;
            },
        }
        i = i + 1;
    }
    proof {
        lemma_anchor_len_unique(p.deep_view(), n as int);
    }
    n
}

/// The components that, pushed one by one onto an empty path, spell `path`
/// relative to `base`, or `None` when one of them is absolute and the other is
/// not, or when their prefixes differ.
pub fn path_relative_from(path: &Vec<PathComponent>, base: &Vec<PathComponent>) -> (r: Option<Vec<PathComponent>>)
    ensures
        r.deep_view() == spec_path_relative_from(path.deep_view(), base.deep_view()),
{
    let path_components = without_cur_dirs(path);
    let base_components = without_cur_dirs(base);
    let ghost pv = path_components.deep_view();
    let ghost bv = base_components.deep_view();
    let path_anchor = count_anchor(&path_components);
    let base_anchor = count_anchor(&base_components);
    if path_anchor != base_anchor {
        assert(!same_components(pv.take(path_anchor as int), bv.take(base_anchor as int)));
        return None;
    }
    let mut i: usize = 0;
    while i < path_anchor
        invariant
            path_anchor == base_anchor,
            pv == drop_cur_dirs(path.deep_view()),
            bv == drop_cur_dirs(base.deep_view()),
            path_anchor == anchor_len(pv),
            base_anchor == anchor_len(bv),
            path_anchor <= path_components.len(),
            base_anchor <= base_components.len(),
            pv == path_components.deep_view(),
            bv == base_components.deep_view(),
            i <= path_anchor,
            forall|j: int| 0 <= j < i ==> same_component_spec(#[trigger] pv[j], bv[j]),
        decreases path_anchor - i,
    {
        if !same_component(&path_components[i], &base_components[i]) {
            assert(!same_component_spec(
                pv.take(path_anchor as int)[i as int],
                bv.take(base_anchor as int)[i as int],
            ));
            return None;
        }
        i = i + 1;
    }
    assert forall|j: int| 0 <= j < path_anchor implies same_component_spec(
        #[trigger] pv.take(path_anchor as int)[j],
        bv.take(base_anchor as int)[j],
    ) by {
        assert(pv.take(path_anchor as int)[j] == pv[j]);
    }
    let max_common = if path_components.len() < base_components.len() {
        path_components.len()
    } else {
        base_components.len()
    };
    let mut common: usize = 0;
    while common < max_common && same_component(&path_components[common], &base_components[common])
        invariant
            max_common <= path_components.len(),
            max_common <= base_components.len(),
            max_common == path_components.len() || max_common == base_components.len(),
            pv == path_components.deep_view(),
            bv == base_components.deep_view(),
            common <= max_common,
            forall|j: int| 0 <= j < common ==> same_component_spec(#[trigger] pv[j], bv[j]),
        decreases max_common - common,
    {
        common = common + 1;
    }
    proof {
        lemma_common_len_unique(pv, bv, common as int);
    }
    let mut result: Vec<PathComponent> = Vec::new();
    let ghost rest = bv.skip(common as int);
    let nb = base_components.len();
    let mut j: usize = common;
    assert(rest.take(0) =~= Seq::<ComponentModel>::empty());
    assert(result.deep_view() =~= Seq::<ComponentModel>::empty());
    while j < nb
        invariant
            nb == base_components.len(),
            bv == base_components.deep_view(),
            rest == bv.skip(common as int),
            common <= j <= nb,
            result.deep_view() == parent_steps(rest.take(j - common)),
        decreases nb - j,
    {
        assert(rest.take(j + 1 - common).drop_last() =~= rest.take(j - common));
        assert(rest.take(j + 1 - common).last() == bv[j as int]);
        match &base_components[j] {
            PathComponent::Normal(_) => {
                let ghost before = result.deep_view();
                result.push(PathComponent::ParentDir);
                assert(result.deep_view() =~= before.push(ComponentModel::ParentDir));
            },
            _ => {},
        }
        j = j + 1;
    }
    assert(rest.take(nb - common) =~= rest);
    let ghost ups = result.deep_view();
    let np = path_components.len();
    let mut k: usize = common;
    while k < np
        invariant
            np == path_components.len(),
            pv == path_components.deep_view(),
            common <= k <= np,
            result.deep_view() == ups + pv.subrange(common as int, k as int),
        decreases np - k,
    {
        let ghost before = result.deep_view();
        result.push(copy_component(&path_components[k]));
        assert(result.deep_view() =~= before.push(pv[k as int]));
        assert(pv.subrange(common as int, k + 1) =~= pv.subrange(common as int, k as int).push(pv[k as int]));
        k = k + 1;
    }
    assert(pv.subrange(common as int, np as int) =~= pv.skip(common as int));
    Some(result)
}

pub proof fn lemma_anchor_len(p: Seq<ComponentModel>)
    ensures
        anchor_len(p) <= p.len(),
        forall|j: int| 0 <= j < anchor_len(p) ==> is_anchor(#[trigger] p[j]),
        anchor_len(p) < p.len() ==> !is_anchor(p[anchor_len(p) as int]),
    decreases p.len(),
{
    if p.len() > 0 && is_anchor(p[0]) {
        lemma_anchor_len(p.drop_first());
        assert forall|j: int| 0 <= j < anchor_len(p) implies is_anchor(#[trigger] p[j]) by {
            if j > 0 {
                assert(p[j] == p.drop_first()[j - 1]);
            }
        }
    }
}

pub proof fn lemma_common_len(a: Seq<ComponentModel>, b: Seq<ComponentModel>)
    ensures
        common_len(a, b) <= a.len(),
        common_len(a, b) <= b.len(),
        forall|j: int| 0 <= j < common_len(a, b) ==> same_component_spec(#[trigger] a[j], b[j]),
        common_len(a, b) < a.len() && common_len(a, b) < b.len() ==> !same_component_spec(
            a[common_len(a, b) as int],
            b[common_len(a, b) as int],
        ),
    decreases a.len(),
{
    if a.len() > 0 && b.len() > 0 && same_component_spec(a[0], b[0]) {
        lemma_common_len(a.drop_first(), b.drop_first());
        assert forall|j: int| 0 <= j < common_len(a, b) implies same_component_spec(#[trigger] a[j], b[j]) by {
            if j > 0 {
                assert(a[j] == a.drop_first()[j - 1]);
                assert(b[j] == b.drop_first()[j - 1]);
            }
        }
    }
}

/// Following `rel` from `base` without looking at the file system: `..` steps
/// back over a normal component, anything else is appended.
pub open spec fn lexical_join(base: Seq<ComponentModel>, rel: Seq<ComponentModel>) -> Seq<ComponentModel>
    decreases rel.len(),
{
    if rel.len() == 0 {
        base
    } else {
        let next = if rel[0] is ParentDir && base.len() > 0 && base.last() is Normal {
            base.drop_last()
        } else {
            base.push(rel[0])
        };
        lexical_join(next, rel.drop_first())
    }
}

/// Whether every component of `p` after its prefix and root is a normal one,
/// as in a canonical path.
pub open spec fn only_normal_after_anchor(p: Seq<ComponentModel>) -> bool {
    forall|i: int| anchor_len(p) <= i < p.len() ==> #[trigger] p[i] is Normal
}

proof fn lemma_join_append(base: Seq<ComponentModel>, r1: Seq<ComponentModel>, r2: Seq<ComponentModel>)
    ensures
        lexical_join(base, r1 + r2) == lexical_join(lexical_join(base, r1), r2),
    decreases r1.len(),
{
    if r1.len() > 0 {
        assert((r1 + r2)[0] == r1[0]);
        assert((r1 + r2).drop_first() =~= r1.drop_first() + r2);
        let next = if r1[0] is ParentDir && base.len() > 0 && base.last() is Normal {
            base.drop_last()
        } else {
            base.push(r1[0])
        };
        lemma_join_append(next, r1.drop_first(), r2);
    } else {
        assert(r1 + r2 =~= r2);
    }
}

proof fn lemma_join_normals(base: Seq<ComponentModel>, s: Seq<ComponentModel>)
    requires
        forall|i: int| 0 <= i < s.len() ==> #[trigger] s[i] is Normal,
    ensures
        lexical_join(base, s) == base + s,
    decreases s.len(),
{
    if s.len() > 0 {
        assert(!(s[0] is ParentDir));
        lemma_join_normals(base.push(s[0]), s.drop_first());
        assert(base.push(s[0]) + s.drop_first() =~= base + s);
    } else {
        assert(base + s =~= base);
    }
}

proof fn lemma_join_parents(b: Seq<ComponentModel>, m: int)
    requires
        0 <= m <= b.len(),
        forall|i: int| b.len() - m <= i < b.len() ==> #[trigger] b[i] is Normal,
    ensures
        lexical_join(b, Seq::new(m as nat, |i: int| ComponentModel::ParentDir)) == b.take(b.len() - m),
    decreases m,
{
    let ups = Seq::new(m as nat, |i: int| ComponentModel::ParentDir);
    if m > 0 {
        assert(b.last() is Normal);
        assert(ups.drop_first() =~= Seq::new((m - 1) as nat, |i: int| ComponentModel::ParentDir));
        assert forall|i: int| b.drop_last().len() - (m - 1) <= i < b.drop_last().len() implies #[trigger] b.drop_last()[i] is Normal by {
            assert(b.drop_last()[i] == b[i]);
        }
        lemma_join_parents(b.drop_last(), m - 1);
        assert(b.drop_last().take(b.drop_last().len() - (m - 1)) =~= b.take(b.len() - m));
    } else {
        assert(b.take(b.len() as int) =~= b);
    }
}

proof fn lemma_parent_steps_of_normals(s: Seq<ComponentModel>)
    requires
        forall|i: int| 0 <= i < s.len() ==> #[trigger] s[i] is Normal,
    ensures
        parent_steps(s) == Seq::new(s.len(), |i: int| ComponentModel::ParentDir),
    decreases s.len(),
{
    if s.len() > 0 {
        assert(s.last() is Normal);
        lemma_parent_steps_of_normals(s.drop_last());
        assert(Seq::new(s.drop_last().len(), |i: int| ComponentModel::ParentDir).push(ComponentModel::ParentDir)
            =~= Seq::new(s.len(), |i: int| ComponentModel::ParentDir));
    } else {
        assert(parent_steps(s) =~= Seq::new(s.len(), |i: int| ComponentModel::ParentDir));
    }
}

/// A path relative to itself is empty.
pub proof fn law_relative_to_itself(path: Seq<ComponentModel>)
    ensures
        spec_path_relative_from(path, path) == Some(Seq::<ComponentModel>::empty()),
{
    let p = drop_cur_dirs(path);
    lemma_common_len_unique(p, p, p.len() as int);
    assert(p.skip(p.len() as int) =~= Seq::<ComponentModel>::empty());
    assert(parent_steps(p.skip(p.len() as int)) =~= Seq::<ComponentModel>::empty());
}

/// Whether `p` has the shape of what `Path::components` yields: a prefix only
/// first; the root only first or right after the prefix; `.` only there too,
/// and only in a path without a root; normal components non-empty.
pub open spec fn is_path_components(p: Seq<ComponentModel>) -> bool {
    let lead: int = if p.len() > 0 && p[0] is Prefix { 1 } else { 0 };
    &&& forall|i: int| 0 <= i < p.len() && #[trigger] p[i] is Prefix ==> i == 0
    &&& forall|i: int| 0 <= i < p.len() && #[trigger] p[i] is RootDir ==> i == lead
    &&& forall|i: int| 0 <= i < p.len() && #[trigger] p[i] is CurDir ==> i == lead
    &&& forall|i: int| 0 <= i < p.len() && #[trigger] p[i] is Normal ==> p[i]->Normal_0.len() > 0
}

/// Whether `p` has no `..` component.
pub open spec fn no_parent_dir(p: Seq<ComponentModel>) -> bool {
    forall|i: int| 0 <= i < p.len() ==> !(#[trigger] p[i] is ParentDir)
}

/// Whether every prefix or root component of `s` comes before all the others.
pub open spec fn anchors_first(s: Seq<ComponentModel>) -> bool {
    forall|i: int, j: int| 0 <= i < j < s.len() && is_anchor(#[trigger] s[j]) ==> is_anchor(#[trigger] s[i])
}

proof fn lemma_same_component_symmetric(a: ComponentModel, b: ComponentModel)
    ensures
        same_component_spec(a, b) == same_component_spec(b, a),
{
}

proof fn lemma_drop_cur_dirs_elements(p: Seq<ComponentModel>)
    ensures
        forall|i: int| 0 <= i < drop_cur_dirs(p).len() ==> p.contains(#[trigger] drop_cur_dirs(p)[i]),
        forall|i: int| 0 <= i < drop_cur_dirs(p).len() ==> !(#[trigger] drop_cur_dirs(p)[i] is CurDir),
    decreases p.len(),
{
    if p.len() > 0 {
        let q = p.drop_last();
        lemma_drop_cur_dirs_elements(q);
        let d = drop_cur_dirs(p);
        assert forall|i: int| 0 <= i < d.len() implies p.contains(#[trigger] d[i]) && !(d[i] is CurDir) by {
            if i < drop_cur_dirs(q).len() {
                assert(d[i] == drop_cur_dirs(q)[i]);
                let j = choose|j: int| 0 <= j < q.len() && q[j] == drop_cur_dirs(q)[i];
                assert(p[j] == q[j]);
            } else {
                assert(d[i] == p.last());
                assert(p[p.len() - 1] == p.last());
            }
        }
    }
}

proof fn lemma_drop_cur_dirs_anchors_first(p: Seq<ComponentModel>)
    requires
        anchors_first(p),
    ensures
        anchors_first(drop_cur_dirs(p)),
    decreases p.len(),
{
    if p.len() > 0 {
        let q = p.drop_last();
        assert forall|i: int, j: int| 0 <= i < j < q.len() && is_anchor(#[trigger] q[j]) implies is_anchor(#[trigger] q[i]) by {
            assert(q[i] == p[i] && q[j] == p[j]);
        }
        lemma_drop_cur_dirs_anchors_first(q);
        lemma_drop_cur_dirs_elements(q);
        let dq = drop_cur_dirs(q);
        let d = drop_cur_dirs(p);
        let x = p.last();
        if !(x is CurDir) && is_anchor(x) {
            assert forall|i: int, j: int| 0 <= i < j < d.len() && is_anchor(#[trigger] d[j]) implies is_anchor(#[trigger] d[i]) by {
                assert(d[i] == dq[i]);
                let m = choose|m: int| 0 <= m < q.len() && q[m] == dq[i];
                assert(p[m] == q[m]);
                assert(p[p.len() - 1] == x);
            }
        } else if !(x is CurDir) {
            assert forall|i: int, j: int| 0 <= i < j < d.len() && is_anchor(#[trigger] d[j]) implies is_anchor(#[trigger] d[i]) by {
                assert(d[i] == dq[i]);
                assert(j < dq.len());
                assert(d[j] == dq[j]);
            }
        }
    }
}

/// What `Path::components` yields for a path without `..` holds, once `.` is
/// dropped, only normal components after its prefix and root.
proof fn lemma_normal_after_anchor(p: Seq<ComponentModel>)
    requires
        is_path_components(p),
        no_parent_dir(p),
    ensures
        only_normal_after_anchor(drop_cur_dirs(p)),
{
    assert forall|i: int, j: int| 0 <= i < j < p.len() && is_anchor(#[trigger] p[j]) implies is_anchor(#[trigger] p[i]) by {
        assert(p[j] is Prefix || p[j] is RootDir);
    }
    lemma_drop_cur_dirs_anchors_first(p);
    lemma_drop_cur_dirs_elements(p);
    let s = drop_cur_dirs(p);
    lemma_anchor_len(s);
    let a = anchor_len(s) as int;
    assert forall|i: int| a <= i < s.len() implies #[trigger] s[i] is Normal by {
        if is_anchor(s[i]) && a < i {
            assert(is_anchor(s[a]));
        }
        let m = choose|m: int| 0 <= m < p.len() && p[m] == s[i];
        assert(!(p[m] is ParentDir));
    }
}

/// Following the relative path from `base` leads back to `path`, for paths as
/// `Path::components` yields them that are anchored alike (the same prefix and
/// root, drive letters whatever their case) and have no `..` (as canonical
/// paths have none): the relative path is relative (no prefix, no root), and
/// stepping back over a component for each `..` and appending the rest gives
/// `path` without its `.` components.
pub proof fn law_relative_path_leads_back(path: Seq<ComponentModel>, base: Seq<ComponentModel>)
    requires
        is_path_components(path),
        is_path_components(base),
        no_parent_dir(path),
        no_parent_dir(base),
        ({
            let p = drop_cur_dirs(path);
            let b = drop_cur_dirs(base);
            same_components(p.take(anchor_len(p) as int), b.take(anchor_len(b) as int))
        }),
    ensures
        spec_path_relative_from(path, base) is Some,
        forall|i: int|
            0 <= i < spec_path_relative_from(path, base)->0.len() ==> !is_anchor(
                #[trigger] spec_path_relative_from(path, base)->0[i],
            ),
        same_components(
            lexical_join(drop_cur_dirs(base), spec_path_relative_from(path, base)->0),
            drop_cur_dirs(path),
        ),
{
    lemma_normal_after_anchor(path);
    lemma_normal_after_anchor(base);
    let p = drop_cur_dirs(path);
    let b = drop_cur_dirs(base);
    lemma_anchor_len(p);
    lemma_anchor_len(b);
    lemma_common_len(p, b);
    let al = anchor_len(p) as int;
    let k = common_len(p, b) as int;
    assert(anchor_len(b) == al) by {
        assert(p.take(al).len() == al);
    }
    if k < al {
        assert(same_component_spec(p.take(al)[k], b.take(al)[k]));
        assert(false);
    }
    let tail_b = b.skip(k);
    let tail_p = p.skip(k);
    assert forall|i: int| 0 <= i < tail_b.len() implies #[trigger] tail_b[i] is Normal by {
        assert(tail_b[i] == b[k + i]);
    }
    assert forall|i: int| 0 <= i < tail_p.len() implies #[trigger] tail_p[i] is Normal by {
        assert(tail_p[i] == p[k + i]);
    }
    lemma_parent_steps_of_normals(tail_b);
    let ups = Seq::new(tail_b.len(), |i: int| ComponentModel::ParentDir);
    let r = ups + tail_p;
    assert(spec_path_relative_from(path, base) == Some(r));
    assert forall|i: int| 0 <= i < r.len() implies !is_anchor(#[trigger] r[i]) by {
        if i >= ups.len() {
            assert(r[i] == tail_p[i - ups.len()]);
        }
    }
    lemma_join_append(b, ups, tail_p);
    assert forall|i: int| b.len() - tail_b.len() <= i < b.len() implies #[trigger] b[i] is Normal by {
        assert(b[i] == tail_b[i - k]);
    }
    lemma_join_parents(b, tail_b.len() as int);
    assert(b.take(b.len() - tail_b.len()) =~= b.take(k));
    lemma_join_normals(b.take(k), tail_p);
    let joined = b.take(k) + tail_p;
    assert forall|i: int| 0 <= i < joined.len() implies same_component_spec(#[trigger] joined[i], p[i]) by {
        if i < k {
            lemma_same_component_symmetric(p[i], b[i]);
            assert(joined[i] == b[i]);
        } else {
            assert(joined[i] == p[i]);
        }
    }
}

/// The common part of `path` and `base` (without their `.` components) ends at
/// the first place `i` past their common anchor where their components are not
/// equal, or where one of them ends: the relative path is a `..` for each normal
/// component of `base` from `i` on, then the components of `path` from `i` on.
/// (From `/home/u/mcp` to `/home/u/mcp-server/x` it is `../mcp-server/x`.)
pub proof fn law_relative_path_splits_at_first_difference(path: Seq<ComponentModel>, base: Seq<ComponentModel>, i: int)
    requires
        ({
            let p = drop_cur_dirs(path);
            let b = drop_cur_dirs(base);
            &&& same_components(p.take(anchor_len(p) as int), b.take(anchor_len(b) as int))
            &&& anchor_len(p) <= i
            &&& i <= p.len()
            &&& i <= b.len()
            &&& forall|j: int| anchor_len(p) <= j < i ==> #[trigger] p[j] == b[j]
            &&& i < p.len() && i < b.len() ==> p[i] != b[i] && !(p[i] is Prefix)
        }),
    ensures
        spec_path_relative_from(path, base) == Some(
            parent_steps(drop_cur_dirs(base).skip(i)) + drop_cur_dirs(path).skip(i),
        ),
{
    let p = drop_cur_dirs(path);
    let b = drop_cur_dirs(base);
    lemma_anchor_len(p);
    lemma_anchor_len(b);
    let al = anchor_len(p) as int;
    assert(anchor_len(b) == al) by {
        assert(p.take(al).len() == al);
    }
    assert forall|j: int| 0 <= j < i implies same_component_spec(#[trigger] p[j], b[j]) by {
        if j < al {
            assert(same_component_spec(p.take(al)[j], b.take(al)[j]));
        } else {
            law_same_component_is_equality_but_for_prefixes(p[j], b[j]);
        }
    }
    if i < p.len() && i < b.len() {
        law_same_component_is_equality_but_for_prefixes(p[i], b[i]);
    }
    lemma_common_len_unique(p, b, i);
}


/// component by component, and the two are anchored alike, the relative path is
/// the rest of `path`: what `Path::strip_prefix` leaves.
pub proof fn law_relative_path_of_descendant(path: Seq<ComponentModel>, base: Seq<ComponentModel>)
    requires
        ({
            let p = drop_cur_dirs(path);
            let b = drop_cur_dirs(base);
            &&& same_components(p.take(anchor_len(p) as int), b.take(anchor_len(b) as int))
            &&& b.len() <= p.len()
            &&& forall|i: int| 0 <= i < b.len() ==> same_component_spec(#[trigger] p[i], b[i])
        }),
    ensures
        spec_path_relative_from(path, base) == Some(drop_cur_dirs(path).skip(drop_cur_dirs(base).len() as int)),
{
    let p = drop_cur_dirs(path);
    let b = drop_cur_dirs(base);
    lemma_common_len_unique(p, b, b.len() as int);
    assert(b.skip(b.len() as int) =~= Seq::<ComponentModel>::empty());
    assert(parent_steps(b.skip(b.len() as int)) =~= Seq::<ComponentModel>::empty());
    assert(Seq::<ComponentModel>::empty() + p.skip(b.len() as int) =~= p.skip(b.len() as int));
}

// ---------------------------------------------------------------------------
// Names and parents
// ---------------------------------------------------------------------------

/// The final component of `p`, when it is a normal one.
pub open spec fn file_name(p: Seq<ComponentModel>) -> Option<Seq<u8>> {
    if p.len() > 0 && p.last() is Normal {
        Some(p.last()->Normal_0)
    } else {
        None
    }
}

/// Whether `p` has a parent: it ends in a normal, `.` or `..` component.
pub open spec fn has_parent(p: Seq<ComponentModel>) -> bool {
    p.len() > 0 && (p.last() is Normal || p.last() is CurDir || p.last() is ParentDir)
}

/// The parent of `p`, when it has one.
pub open spec fn parent(p: Seq<ComponentModel>) -> Option<Seq<ComponentModel>> {
    if has_parent(p) {
        Some(p.drop_last())
    } else {
        None
    }
}

/// The final component of `p`, when it is a normal one.
pub fn final_name(p: &Vec<PathComponent>) -> (r: Option<Vec<u8>>)
    ensures
        r.deep_view() == file_name(p.deep_view()),
{
    if p.len() == 0 {
        return None;
    }
    match &p[p.len() - 1] {
        PathComponent::Normal(b) => {
            let v = b.clone();
            assert(v@ =~= b@);
            Some(v)
        },
        _ => None,
    }
}

// ---------------------------------------------------------------------------
// The target directory
// ---------------------------------------------------------------------------

/// The bytes of `target`.
pub open spec fn target_name() -> Seq<u8> {
    seq![116u8, 97u8, 114u8, 103u8, 101u8, 116u8]
}

/// `p` with its last `k` components removed.
pub open spec fn ancestor(p: Seq<ComponentModel>, k: int) -> Seq<ComponentModel> {
    p.take(p.len() - k)
}

/// Whether walking up from `p` through parents reaches `ancestor(p, k)`.
pub open spec fn reaches(p: Seq<ComponentModel>, k: int) -> bool {
    &&& 0 <= k <= p.len()
    &&& forall|j: int| 0 <= j < k ==> #[trigger] has_parent(ancestor(p, j))
}

/// Whether `ancestor(p, k)` is reached, is a directory (`is_dir[k]`), and is
/// named `target`.
pub open spec fn is_target_dir_at(p: Seq<ComponentModel>, is_dir: Seq<bool>, k: int) -> bool {
    &&& reaches(p, k)
    &&& is_dir[k]
    &&& file_name(ancestor(p, k)) == Some(target_name())
}

fn is_target_component(c: &PathComponent) -> (r: bool)
    ensures
        r == (c@ == ComponentModel::Normal(target_name())),
{
    match c {
        PathComponent::Normal(b) => {
            let r = b.len() == 6 && b[0] == 116u8 && b[1] == 97u8 && b[2] == 114u8 && b[3] == 103u8
                && b[4] == 101u8 && b[5] == 116u8;
            proof {
                if r {
                    assert(b@ =~= target_name());
                }
            }
            r
        },
        _ => false,
    }
}

/// The nearest directory named `target` among `path` and the ancestors reached
/// from it through parents. `is_dir[k]` tells whether the path with the last
/// `k` components of `path` removed is a directory.
pub fn to_target_dir(path: &Vec<PathComponent>, is_dir: &Vec<bool>) -> (r: Option<Vec<PathComponent>>)
    requires
        is_dir.len() == path.len() + 1,
    ensures
        r is Some ==> exists|k: int|
            #![trigger ancestor(path.deep_view(), k)]
            is_target_dir_at(path.deep_view(), is_dir@, k) && r->0.deep_view() == ancestor(
                path.deep_view(),
                k,
            ) && forall|j: int| 0 <= j < k ==> !is_target_dir_at(path.deep_view(), is_dir@, j),
        r is None ==> forall|k: int|
            0 <= k <= path.len() ==> !is_target_dir_at(path.deep_view(), is_dir@, k),
{
    let ghost p = path.deep_view();
    let n = path.len();
    let mut k: usize = 0;
    while k <= n
        invariant
            n == path.len(),
            p == path.deep_view(),
            is_dir.len() == n + 1,
            reaches(p, k as int),
            forall|j: int| 0 <= j < k ==> !is_target_dir_at(p, is_dir@, j),
        decreases n + 1 - k,
    {
        let m = n - k;
        assert(ancestor(p, k as int).len() == m);
        if m > 0 {
            assert(ancestor(p, k as int).last() == p[m - 1]);
        }
        if is_dir[k] && m > 0 && is_target_component(&path[m - 1]) {
            let found = copy_prefix(path, m);
            return Some(found);
        }
        let up = m > 0 && match &path[m - 1] {
            PathComponent::Normal(_) => true,
            PathComponent::CurDir => true,
            PathComponent::ParentDir => true,
            _ => false,
        };
        if !up {
            assert(!has_parent(ancestor(p, k as int)));
            assert forall|j: int| 0 <= j <= n implies !is_target_dir_at(p, is_dir@, j) by {
                if j > k {
                    assert(!has_parent(ancestor(p, k as int)));
                }
            }
            return None;
        }
        assert(has_parent(ancestor(p, k as int)));
        k = k + 1;
    }
    None
}

} // verus!
