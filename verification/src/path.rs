//! Normalized file paths as sequences of names.
use vstd::prelude::*;

verus! {

/// How one value of an ordered type lies to another.
#[derive(Clone, Copy, Debug, PartialEq, Eq, Structural)]
pub enum Relation {
    Before,
    Same,
    After,
}

/// The relation with its two sides exchanged.
pub open spec fn flipped(r: Relation) -> Relation {
    match r {
        Relation::Before => Relation::After,
        Relation::Same => Relation::Same,
        Relation::After => Relation::Before,
    }
}

/// The lexicographic order of byte strings.
pub open spec fn name_relation(a: Seq<u8>, b: Seq<u8>) -> Relation
    decreases a.len(),
{
    if a.len() == 0 || b.len() == 0 {
        if b.len() > 0 {
            Relation::Before
        } else if a.len() > 0 {
            Relation::After
        } else {
            Relation::Same
        }
    } else if a[0] < b[0] {
        Relation::Before
    } else if b[0] < a[0] {
        Relation::After
    } else {
        name_relation(a.drop_first(), b.drop_first())
    }
}

/// The name that leads back to the parent directory.
pub open spec fn parent_name() -> Seq<u8> {
    seq![46u8, 46u8]
}

/// The order of the components of a path: the way back to the parent directory comes before every
/// other name, and other names are in lexicographic order.
pub open spec fn component_relation(a: Seq<u8>, b: Seq<u8>) -> Relation {
    if a == b {
        Relation::Same
    } else if a == parent_name() {
        Relation::Before
    } else if b == parent_name() {
        Relation::After
    } else {
        name_relation(a, b)
    }
}

/// The lexicographic order of sequences of names.
pub open spec fn names_relation(a: Seq<Seq<u8>>, b: Seq<Seq<u8>>) -> Relation
    decreases a.len(),
{
    if a.len() == 0 || b.len() == 0 {
        if b.len() > 0 {
            Relation::Before
        } else if a.len() > 0 {
            Relation::After
        } else {
            Relation::Same
        }
    } else if component_relation(a[0], b[0]) != Relation::Same {
        component_relation(a[0], b[0])
    } else {
        names_relation(a.drop_first(), b.drop_first())
    }
}

/// The index of the last dot in `name`, or -1.
pub open spec fn last_dot(name: Seq<u8>) -> int
    decreases name.len(),
{
    if name.len() == 0 {
        -1
    } else if name.last() == 46u8 {
        name.len() - 1
    } else {
        last_dot(name.drop_last())
    }
}

/// The names of `parts`, each with a slash between it and the one before it.
pub open spec fn slashed(parts: Seq<Seq<u8>>) -> Seq<u8>
    decreases parts.len(),
{
    if parts.len() == 0 {
        Seq::empty()
    } else if parts.len() == 1 {
        parts[0]
    } else {
        slashed(parts.drop_last()) + seq![47u8] + parts.last()
    }
}

/// `name` can stand in a path: it is not empty, not the current directory, and no slash is in it.
pub open spec fn is_plain_name(name: Seq<u8>) -> bool {
    &&& name.len() > 0
    &&& name != seq![46u8]
    &&& !name.contains(47u8)
}

/// A path: whether it starts at the root of the file system, and the names on the way.
#[verifier::ext_equal]
pub struct PathView {
    pub absolute: bool,
    pub parts: Seq<Seq<u8>>,
}

impl PathView {
    /// Every name of the path can stand in a path.
    pub open spec fn has_plain_names(self) -> bool {
        forall|i: int| 0 <= i < self.parts.len() ==> is_plain_name(#[trigger] self.parts[i])
    }

    /// `base` is this path or one of its ancestors. The empty relative path starts every path.
    pub open spec fn starts_with(self, base: PathView) -> bool {
        &&& base.parts.is_prefix_of(self.parts)
        &&& self.absolute == base.absolute || (!base.absolute && base.parts.len() == 0)
    }

    /// `dir` is a proper ancestor of this path.
    pub open spec fn is_below(self, dir: PathView) -> bool {
        self.starts_with(dir) && self != dir
    }

    /// The path without its last name.
    pub open spec fn parent(self) -> Option<PathView> {
        if self.parts.len() == 0 {
            None
        } else {
            Some(PathView { absolute: self.absolute, parts: self.parts.drop_last() })
        }
    }

    /// The last name of the path, unless it leads back to the parent directory.
    pub open spec fn file_name(self) -> Option<Seq<u8>> {
        if self.parts.len() == 0 || self.parts.last() == parent_name() {
            None
        } else {
            Some(self.parts.last())
        }
    }

    /// What follows the last dot of the last name, if something precedes that dot.
    pub open spec fn extension(self) -> Option<Seq<u8>> {
        match self.file_name() {
            Some(name) => if last_dot(name) > 0 {
                Some(name.skip(last_dot(name) + 1))
            } else {
                None
            },
            None => None,
        }
    }

    /// The path with slashes between its names, and one before them where it is absolute.
    pub open spec fn text(self) -> Seq<u8> {
        if self.absolute {
            seq![47u8] + slashed(self.parts)
        } else {
            slashed(self.parts)
        }
    }

    /// The order of paths by their components; the root of the file system comes before a name.
    pub open spec fn relation(self, other: PathView) -> Relation {
        if self.absolute == other.absolute {
            names_relation(self.parts, other.parts)
        } else if self.absolute {
            if other.parts.len() == 0 {
                Relation::After
            } else {
                Relation::Before
            }
        } else {
            if self.parts.len() == 0 {
                Relation::Before
            } else {
                Relation::After
            }
        }
    }
}

proof fn lemma_name_relation_same(a: Seq<u8>, b: Seq<u8>)
    ensures
        name_relation(a, b) == Relation::Same <==> a == b,
    decreases a.len(),
{
    if a.len() > 0 && b.len() > 0 {
        lemma_name_relation_same(a.drop_first(), b.drop_first());
        if a.drop_first() == b.drop_first() && a[0] == b[0] {
            assert(a == seq![a[0]] + a.drop_first());
            assert(b == seq![b[0]] + b.drop_first());
        }
    } else if a.len() == 0 && b.len() == 0 {
        assert(a == b);
    }
}

proof fn lemma_name_relation_flips(a: Seq<u8>, b: Seq<u8>)
    ensures
        name_relation(b, a) == flipped(name_relation(a, b)),
    decreases a.len(),
{
    if a.len() > 0 && b.len() > 0 {
        lemma_name_relation_flips(a.drop_first(), b.drop_first());
    }
}

proof fn lemma_name_relation_chains(a: Seq<u8>, b: Seq<u8>, c: Seq<u8>)
    requires
        name_relation(a, b) != Relation::After,
        name_relation(b, c) != Relation::After,
    ensures
        name_relation(a, c) != Relation::After,
        name_relation(a, c) == Relation::Same ==> name_relation(a, b) == Relation::Same
            && name_relation(b, c) == Relation::Same,
    decreases a.len(),
{
    if a.len() > 0 && b.len() > 0 && c.len() > 0 {
        if a[0] == b[0] && b[0] == c[0] {
            lemma_name_relation_chains(a.drop_first(), b.drop_first(), c.drop_first());
        }
    }
}

proof fn lemma_component_relation_flips(a: Seq<u8>, b: Seq<u8>)
    ensures
        component_relation(b, a) == flipped(component_relation(a, b)),
        component_relation(a, b) == Relation::Same <==> a == b,
{
    lemma_name_relation_flips(a, b);
    lemma_name_relation_same(a, b);
}

proof fn lemma_component_relation_chains(a: Seq<u8>, b: Seq<u8>, c: Seq<u8>)
    requires
        component_relation(a, b) != Relation::After,
        component_relation(b, c) != Relation::After,
    ensures
        component_relation(a, c) != Relation::After,
        component_relation(a, c) == Relation::Same ==> a == b && b == c,
{
    lemma_name_relation_same(a, b);
    lemma_name_relation_same(b, c);
    lemma_name_relation_same(a, c);
    if a != b && b != c && a != parent_name() && b != parent_name() && c != parent_name() {
        lemma_name_relation_chains(a, b, c);
    }
}

proof fn lemma_names_relation_same(a: Seq<Seq<u8>>, b: Seq<Seq<u8>>)
    ensures
        names_relation(a, b) == Relation::Same <==> a == b,
    decreases a.len(),
{
    if a.len() > 0 && b.len() > 0 {
        lemma_component_relation_flips(a[0], b[0]);
        lemma_names_relation_same(a.drop_first(), b.drop_first());
        if a.drop_first() == b.drop_first() && a[0] == b[0] {
            assert(a == seq![a[0]] + a.drop_first());
            assert(b == seq![b[0]] + b.drop_first());
        }
    } else if a.len() == 0 && b.len() == 0 {
        assert(a == b);
    }
}

proof fn lemma_names_relation_flips(a: Seq<Seq<u8>>, b: Seq<Seq<u8>>)
    ensures
        names_relation(b, a) == flipped(names_relation(a, b)),
    decreases a.len(),
{
    if a.len() > 0 && b.len() > 0 {
        lemma_component_relation_flips(a[0], b[0]);
        lemma_names_relation_flips(a.drop_first(), b.drop_first());
    }
}

proof fn lemma_names_relation_chains(a: Seq<Seq<u8>>, b: Seq<Seq<u8>>, c: Seq<Seq<u8>>)
    requires
        names_relation(a, b) != Relation::After,
        names_relation(b, c) != Relation::After,
    ensures
        names_relation(a, c) != Relation::After,
    decreases a.len(),
{
    if a.len() > 0 && b.len() > 0 && c.len() > 0 {
        lemma_component_relation_chains(a[0], b[0], c[0]);
        lemma_component_relation_flips(a[0], b[0]);
        lemma_component_relation_flips(b[0], c[0]);
        if a[0] == b[0] && b[0] == c[0] {
            lemma_names_relation_chains(a.drop_first(), b.drop_first(), c.drop_first());
        }
    }
}

/// Two paths are in the same place of the order only if they are equal.
pub proof fn lemma_relation_same(a: PathView, b: PathView)
    ensures
        a.relation(b) == Relation::Same <==> a == b,
{
    lemma_names_relation_same(a.parts, b.parts);
    if a.absolute == b.absolute && a.parts == b.parts {
        assert(a =~= b);
    }
}

/// Exchanging two paths turns their relation around.
pub proof fn lemma_relation_flips(a: PathView, b: PathView)
    ensures
        b.relation(a) == flipped(a.relation(b)),
{
    lemma_names_relation_flips(a.parts, b.parts);
}

/// The order of paths is transitive.
pub proof fn lemma_relation_chains(a: PathView, b: PathView, c: PathView)
    requires
        a.relation(b) != Relation::After,
        b.relation(c) != Relation::After,
    ensures
        a.relation(c) != Relation::After,
{
    if a.absolute == b.absolute && b.absolute == c.absolute {
        lemma_names_relation_chains(a.parts, b.parts, c.parts);
    }
}

/// Being below is transitive, and no path is below itself.
pub proof fn lemma_below_is_strict_order(a: PathView, b: PathView, c: PathView)
    ensures
        !a.is_below(a),
        a.is_below(b) && b.is_below(c) ==> a.is_below(c),
        a.is_below(b) ==> !b.is_below(a),
        a.is_below(b) ==> a.parts.len() >= b.parts.len(),
{
    if a.is_below(b) {
        if a.parts.len() == b.parts.len() {
            assert(a.parts == b.parts);
        }
        if b.is_below(c) {
            if b.parts.len() == c.parts.len() {
                assert(b.parts == c.parts);
            }
            assert(c.parts.is_prefix_of(a.parts)) by {
                assert(c.parts == a.parts.subrange(0, c.parts.len() as int));
            }
        }
        if b.is_below(a) {
            assert(a.parts == b.parts);
        }
    }
}

/// The contents of a vector of names.
pub open spec fn names_view(parts: Seq<Vec<u8>>) -> Seq<Seq<u8>> {
    Seq::new(parts.len(), |i: int| parts[i]@)
}

/// A path whose names can all stand in a path.
#[derive(Debug)]
pub struct TreePath {
    absolute: bool,
    parts: Vec<Vec<u8>>,
}

impl View for TreePath {
    type V = PathView;

    closed spec fn view(&self) -> PathView {
        PathView { absolute: self.absolute, parts: names_view(self.parts@) }
    }
}

/// `name` is the name that leads back to the parent directory.
fn is_parent_name(name: &Vec<u8>) -> (r: bool)
    ensures
        r == (name@ == parent_name()),
{
    let r = name.len() == 2 && name[0] == 46 && name[1] == 46;
    assert(r ==> name@ =~= parent_name());
    r
}

/// `name` can stand in a path.
fn can_stand_in_path(name: &Vec<u8>) -> (r: bool)
    ensures
        r == is_plain_name(name@),
{
    if name.len() == 0 {
        return false;
    }
    if name.len() == 1 && name[0] == 46 {
        assert(name@ =~= seq![46u8]);
        return false;
    }
    let mut i: usize = 0;
    while i < name.len()
        invariant
            i <= name.len(),
            forall|j: int| 0 <= j < i ==> name@[j] != 47,
        decreases name.len() - i,
    {
        if name[i] == 47 {
            assert(name@.contains(47u8));
            return false;
        }
        i += 1;
    }
    true
}

fn copy_name(name: &Vec<u8>) -> (r: Vec<u8>)
    ensures
        r@ == name@,
{
    let mut out: Vec<u8> = Vec::with_capacity(name.len());
    let mut i: usize = 0;
    while i < name.len()
        invariant
            i <= name.len(),
            out@ == name@.take(i as int),
        decreases name.len() - i,
    {
        out.push(name[i]);
        i += 1;
        assert(name@.take(i as int) == name@.take(i - 1).push(name@[i - 1]));
    }
    assert(name@.take(i as int) == name@);
    out
}

fn same_name(a: &Vec<u8>, b: &Vec<u8>) -> (r: bool)
    ensures
        r == (a@ == b@),
{
    if a.len() != b.len() {
        return false;
    }
    let mut i: usize = 0;
    while i < a.len()
        invariant
            i <= a.len(),
            a.len() == b.len(),
            forall|j: int| 0 <= j < i ==> a@[j] == b@[j],
        decreases a.len() - i,
    {
        if a[i] != b[i] {
            return false;
        }
        i += 1;
    }
    assert(a@ == b@);
    true
}

/// How one component of a path lies to another.
fn compare_components(a: &Vec<u8>, b: &Vec<u8>) -> (r: Relation)
    ensures
        r == component_relation(a@, b@),
{
    proof {
        lemma_name_relation_same(a@, b@);
    }
    match (is_parent_name(a), is_parent_name(b)) {
        (true, true) => Relation::Same,
        (true, false) => Relation::Before,
        (false, true) => Relation::After,
        (false, false) => compare_names(a, b),
    }
}

fn compare_names(a: &Vec<u8>, b: &Vec<u8>) -> (r: Relation)
    ensures
        r == name_relation(a@, b@),
{
    let mut i: usize = 0;
    assert(a@.skip(0) == a@);
    assert(b@.skip(0) == b@);
    while i < a.len() && i < b.len()
        invariant
            i <= a.len(),
            i <= b.len(),
            name_relation(a@, b@) == name_relation(a@.skip(i as int), b@.skip(i as int)),
        decreases a.len() - i,
    {
        if a[i] < b[i] {
            return Relation::Before;
        }
        if b[i] < a[i] {
            return Relation::After;
        }
        assert(a@.skip(i as int).drop_first() == a@.skip(i + 1));
        assert(b@.skip(i as int).drop_first() == b@.skip(i + 1));
        i += 1;
    }
    if i < b.len() {
        Relation::Before
    } else if i < a.len() {
        Relation::After
    } else {
        Relation::Same
    }
}

impl TreePath {
    #[verifier::type_invariant]
    spec fn has_plain_names(self) -> bool {
        self@.has_plain_names()
    }

    /// The path with the names `parts`, or `None` where one of them cannot stand in a path.
    pub fn new(absolute: bool, parts: Vec<Vec<u8>>) -> (r: Option<TreePath>)
        ensures
            r is Some <==> (PathView { absolute, parts: names_view(parts@) }).has_plain_names(),
            r is Some ==> r->0@ == (PathView { absolute, parts: names_view(parts@) }),
    {
        let ghost path = PathView { absolute, parts: names_view(parts@) };
        let mut i: usize = 0;
        while i < parts.len()
            invariant
                i <= parts.len(),
                path == (PathView { absolute, parts: names_view(parts@) }),
                forall|j: int| 0 <= j < i ==> is_plain_name(#[trigger] path.parts[j]),
            decreases parts.len() - i,
        {
            if !can_stand_in_path(&parts[i]) {
                assert(!is_plain_name(path.parts[i as int]));
                return None;
            }
            i += 1;
        }
        Some(TreePath { absolute, parts })
    }

    pub fn is_absolute(&self) -> (r: bool)
        ensures
            r == self@.absolute,
    {
        self.absolute
    }

    /// The names of the path, from the first to the last.
    pub fn parts(&self) -> (r: &Vec<Vec<u8>>)
        ensures
            names_view(r@) == self@.parts,
            self@.has_plain_names(),
    {
        proof {
            use_type_invariant(self);
        }
        &self.parts
    }

    pub fn equals(&self, other: &TreePath) -> (r: bool)
        ensures
            r == (self@ == other@),
    {
        if self.absolute != other.absolute || self.parts.len() != other.parts.len() {
            assert(self@.parts.len() == self.parts.len() && other@.parts.len() == other.parts.len());
            return false;
        }
        self.has_prefix(&other.parts)
    }

    /// The names of this path begin with `parts`.
    fn has_prefix(&self, parts: &Vec<Vec<u8>>) -> (r: bool)
        ensures
            r == names_view(parts@).is_prefix_of(self@.parts),
            r && parts.len() == self.parts.len() ==> names_view(parts@) == self@.parts,
    {
        if parts.len() > self.parts.len() {
            return false;
        }
        let mut i: usize = 0;
        while i < parts.len()
            invariant
                i <= parts.len() <= self.parts.len(),
                forall|j: int| 0 <= j < i ==> names_view(parts@)[j] == #[trigger] self@.parts[j],
            decreases parts.len() - i,
        {
            if !same_name(&self.parts[i], &parts[i]) {
                assert(names_view(parts@)[i as int] != self@.parts.subrange(
                    0,
                    parts.len() as int,
                )[i as int]);
                return false;
            }
            i += 1;
        }
        true
    }

    /// `base` is this path or one of its ancestors.
    pub fn starts_with(&self, base: &TreePath) -> (r: bool)
        ensures
            r == self@.starts_with(base@),
    {
        (self.absolute == base.absolute || (!base.absolute && base.parts.len() == 0))
            && self.has_prefix(&base.parts)
    }

    /// The path without its last name, or `None` where it has no name.
    pub fn parent(&self) -> (r: Option<TreePath>)
        ensures
            r is Some == self@.parent() is Some,
            r is Some ==> r->0@ == self@.parent()->0,
    {
        if self.parts.len() == 0 {
            return None;
        }
        let parts = self.first_parts(self.parts.len() - 1);
        proof {
            use_type_invariant(self);
            assert(names_view(parts@) == self@.parts.drop_last());
        }
        Some(TreePath { absolute: self.absolute, parts })
    }

    fn first_parts(&self, n: usize) -> (r: Vec<Vec<u8>>)
        requires
            n <= self.parts.len(),
        ensures
            names_view(r@) == self@.parts.take(n as int),
    {
        let mut out: Vec<Vec<u8>> = Vec::with_capacity(n);
        let mut i: usize = 0;
        while i < n
            invariant
                i <= n <= self.parts.len(),
                out.len() == i,
                forall|j: int| 0 <= j < i ==> (#[trigger] out@[j])@ == self@.parts[j],
            decreases n - i,
        {
            out.push(copy_name(&self.parts[i]));
            i += 1;
        }
        assert(names_view(out@) == self@.parts.take(n as int));
        out
    }

    /// How this path lies to `other` in the order of paths.
    pub fn compare(&self, other: &TreePath) -> (r: Relation)
        ensures
            r == self@.relation(other@),
    {
        if self.absolute != other.absolute {
            return if self.absolute {
                if other.parts.len() == 0 {
                    Relation::After
                } else {
                    Relation::Before
                }
            } else {
                if self.parts.len() == 0 {
                    Relation::Before
                } else {
                    Relation::After
                }
            };
        }
        let ghost a = self@.parts;
        let ghost b = other@.parts;
        let mut i: usize = 0;
        assert(a.skip(0) == a);
        assert(b.skip(0) == b);
        while i < self.parts.len() && i < other.parts.len()
            invariant
                i <= self.parts.len(),
                i <= other.parts.len(),
                self.absolute == other.absolute,
                a == self@.parts,
                b == other@.parts,
                names_relation(a, b) == names_relation(a.skip(i as int), b.skip(i as int)),
            decreases self.parts.len() - i,
        {
            assert(a.skip(i as int)[0] == self.parts@[i as int]@);
            assert(b.skip(i as int)[0] == other.parts@[i as int]@);
            let r = compare_components(&self.parts[i], &other.parts[i]);
            if r != Relation::Same {
                assert(self@.relation(other@) == r);
                return r;
            }
            assert(a.skip(i as int).drop_first() == a.skip(i + 1));
            assert(b.skip(i as int).drop_first() == b.skip(i + 1));
            i += 1;
        }
        if i < other.parts.len() {
            Relation::Before
        } else if i < self.parts.len() {
            Relation::After
        } else {
            Relation::Same
        }
    }

    /// The last name of the path, unless it leads back to the parent directory.
    pub fn file_name(&self) -> (r: Option<&Vec<u8>>)
        ensures
            r is Some == self@.file_name() is Some,
            r is Some ==> r->0@ == self@.file_name()->0,
    {
        if self.parts.len() == 0 {
            return None;
        }
        let name = &self.parts[self.parts.len() - 1];
        assert(name@ == self@.parts.last());
        if is_parent_name(name) {
            None
        } else {
            Some(name)
        }
    }

    /// What follows the last dot of the last name, if something precedes that dot.
    pub fn extension(&self) -> (r: Option<Vec<u8>>)
        ensures
            r is Some == self@.extension() is Some,
            r is Some ==> r->0@ == self@.extension()->0,
    {
        let name = match self.file_name() {
            Some(name) => name,
            None => return None,
        };
        let mut i: usize = name.len();
        assert(name@.take(i as int) == name@);
        while i > 0 && name[i - 1] != 46
            invariant
                i <= name.len(),
                last_dot(name@) == last_dot(name@.take(i as int)),
            decreases i,
        {
            assert(name@.take(i as int).drop_last() == name@.take(i - 1));
            i -= 1;
        }
        assert(last_dot(name@) == i - 1);
        if i < 2 {
            return None;
        }
        let mut out: Vec<u8> = Vec::new();
        let mut j: usize = i;
        while j < name.len()
            invariant
                i <= j <= name.len(),
                out@ == name@.subrange(i as int, j as int),
            decreases name.len() - j,
        {
            out.push(name[j]);
            j += 1;
            assert(name@.subrange(i as int, j as int) == name@.subrange(i as int, j - 1).push(
                name@[j - 1],
            ));
        }
        assert(out@ == name@.skip(i as int));
        Some(out)
    }

    /// The bytes of the path with slashes between its names.
    pub fn text(&self) -> (r: Vec<u8>)
        ensures
            r@ == self@.text(),
    {
        let mut out: Vec<u8> = Vec::new();
        if self.absolute {
            out.push(47);
        }
        let ghost head = out@;
        let ghost names = self@.parts;
        let mut i: usize = 0;
        while i < self.parts.len()
            invariant
                i <= self.parts.len(),
                names == self@.parts,
                out@ == head + slashed(names.take(i as int)),
            decreases self.parts.len() - i,
        {
            let ghost before = names.take(i as int);
            let ghost after = names.take(i + 1);
            assert(after.drop_last() == before);
            assert(after.last() == self.parts@[i as int]@);
            if i > 0 {
                out.push(47);
            }
            let ghost base = out@;
            let mut j: usize = 0;
            while j < self.parts[i].len()
                invariant
                    i < self.parts.len(),
                    j <= self.parts@[i as int]@.len(),
                    out@ == base + self.parts@[i as int]@.take(j as int),
                decreases self.parts@[i as int]@.len() - j,
            {
                out.push(self.parts[i][j]);
                j += 1;
                assert(self.parts@[i as int]@.take(j as int) == self.parts@[i as int]@.take(
                    j - 1,
                ).push(self.parts@[i as int]@[j - 1]));
            }
            assert(self.parts@[i as int]@.take(j as int) == self.parts@[i as int]@);
            assert(out@ == head + slashed(after)) by {
                if i == 0 {
                    assert(after[0] == self.parts@[0]@);
                    assert(slashed(before) == Seq::<u8>::empty());
                }
            }
            i += 1;
        }
        assert(names.take(i as int) == names);
        out
    }
}

impl Clone for TreePath {
    fn clone(&self) -> (r: TreePath)
        ensures
            r@ == self@,
    {
        let parts = self.first_parts(self.parts.len());
        proof {
            use_type_invariant(self);
            assert(self@.parts.take(self.parts.len() as int) == self@.parts);
        }
        TreePath { absolute: self.absolute, parts }
    }
}

impl PartialEq for TreePath {
    fn eq(&self, other: &TreePath) -> (r: bool) {
        self.equals(other)
    }
}

impl Eq for TreePath {

}

impl vstd::std_specs::cmp::PartialEqSpecImpl for TreePath {
    open spec fn obeys_eq_spec() -> bool {
        true
    }

    open spec fn eq_spec(&self, other: &TreePath) -> bool {
        self@ == other@
    }
}

} // verus!
