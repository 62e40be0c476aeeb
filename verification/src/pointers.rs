//! Heap-shaped data: a boxed binary tree, a reference-counted package
//! dependency tree, and a counter behind a shared handle.

use vstd::prelude::*;
use std::rc::Rc;

verus! {

/// A binary tree of integers, its children boxed.
pub struct BinaryTreeNode {
    value: i32,
    left_child: Option<Box<BinaryTreeNode>>,
    right_child: Option<Box<BinaryTreeNode>>,
}

impl BinaryTreeNode {
    /// The sum of all values in the tree, as an unbounded integer.
    pub closed spec fn spec_sum(&self) -> int
        decreases *self,
    {
        self.value + (match self.left_child {
            Some(l) => l.spec_sum(),
            None => 0,
        }) + (match self.right_child {
            Some(r) => r.spec_sum(),
            None => 0,
        })
    }

    /// Whether summing the tree stays within machine bounds at every
    /// intermediate step: the value plus the left sum, and that plus the
    /// right sum, fit, in every subtree.
    pub closed spec fn sum_fits(&self) -> bool
        decreases *self,
    {
        let left_sum: int = match self.left_child {
            Some(l) => l.spec_sum(),
            None => 0,
        };
        let right_sum: int = match self.right_child {
            Some(r) => r.spec_sum(),
            None => 0,
        };
        &&& (match self.left_child {
            Some(l) => l.sum_fits(),
            None => true,
        })
        &&& (match self.right_child {
            Some(r) => r.sum_fits(),
            None => true,
        })
        &&& i32::MIN <= self.value + left_sum <= i32::MAX
        &&& i32::MIN <= self.value + left_sum + right_sum <= i32::MAX
    }

    /// Creates a leaf holding the value.
    pub fn new(value: i32) -> (r: Self)
        ensures
            r.spec_sum() == value,
            r.sum_fits(),
    {
        BinaryTreeNode { value, left_child: None, right_child: None }
    }

    /// Creates a node holding the value and both children.
    pub fn with_children(value: i32, left_child: BinaryTreeNode, right_child: BinaryTreeNode) -> (r:
        Self)
        ensures
            r.spec_sum() == value + left_child.spec_sum() + right_child.spec_sum(),
            r.sum_fits() == (left_child.sum_fits() && right_child.sum_fits() && i32::MIN <= value
                + left_child.spec_sum() <= i32::MAX && i32::MIN <= value + left_child.spec_sum()
                + right_child.spec_sum() <= i32::MAX),
    {
        BinaryTreeNode {
            value,
            left_child: Some(Box::new(left_child)),
            right_child: Some(Box::new(right_child)),
        }
    }

    /// Sums all values in the tree.
    pub fn sum(&self) -> (r: i32)
        requires
            self.sum_fits(),
        ensures
            r == self.spec_sum(),
        decreases *self,
    {
        let mut result = self.value;
        if let Some(ref left) = self.left_child {
            result = result + left.sum();
        }
        if let Some(ref right) = self.right_child {
            result = result + right.sum();
        }
        result
    }
}

/// A package with a name and shared dependencies: several packages may
/// depend on the same library through a shared handle.
pub struct Package {
    name: String,
    dependencies: Vec<Rc<Package>>,
}

impl Package {
    /// The package's name.
    pub closed spec fn spec_name(&self) -> Seq<char> {
        self.name@
    }

    /// The package's direct dependencies.
    pub closed spec fn spec_dependencies(&self) -> Seq<Rc<Package>> {
        self.dependencies@
    }

    /// All dependency names of the package, recursively, each dependency
    /// listed before its own dependencies.
    pub open spec fn spec_dep_names(&self) -> Seq<Seq<char>>
        decreases *self, 1int,
    {
        dep_names_of(self.spec_dependencies())
    }

    /// Creates a package with no dependencies, behind a shared handle.
    pub fn new(name: &str) -> (r: Rc<Self>)
        ensures
            r.spec_name() == name@,
            r.spec_dependencies() == Seq::<Rc<Package>>::empty(),
            r.spec_dep_names() == Seq::<Seq<char>>::empty(),
    {
        let p = Package { name: name.to_owned(), dependencies: Vec::new() };
        proof {
            assert(p.spec_dependencies() =~= Seq::<Rc<Package>>::empty());
            assert(p.spec_dep_names() =~= Seq::<Seq<char>>::empty());
        }
        Rc::new(p)
    }

    /// Creates a package with the given dependencies, behind a shared
    /// handle.
    pub fn with_dependencies(name: &str, dependencies: Vec<Rc<Package>>) -> (r: Rc<Self>)
        ensures
            r.spec_name() == name@,
            r.spec_dependencies() == dependencies@,
            r.spec_dep_names() == dep_names_of(dependencies@),
    {
        Rc::new(Package { name: name.to_owned(), dependencies })
    }

    /// Lists every dependency of the package, direct and recursive, each
    /// one before its own dependencies.
    pub fn list_dependencies(package: Rc<Package>) -> (r: Vec<String>)
        ensures
            r@.map_values(|s: String| s@) == package.spec_dep_names(),
    {
        let mut result: Vec<String> = Vec::new();
        proof {
            assert(result@.map_values(|s: String| s@) =~= Seq::<Seq<char>>::empty());
        }
        collect_deps(&package, &mut result);
        result
    }
}

/// The names contributed by a run of dependencies: for each, its own name
/// and then all of its recursive dependency names.
pub open spec fn dep_names_of(deps: Seq<Rc<Package>>) -> Seq<Seq<char>>
    decreases deps, 0int,
{
    if deps.len() == 0 {
        Seq::empty()
    } else {
        seq![deps[0].spec_name()] + deps[0].spec_dep_names() + dep_names_of(deps.drop_first())
    }
}

/// Appending one dependency appends its name and its recursive names.
proof fn lemma_dep_names_snoc(deps: Seq<Rc<Package>>, d: Rc<Package>)
    ensures
        dep_names_of(deps.push(d)) == dep_names_of(deps) + (seq![d.spec_name()]
            + d.spec_dep_names()),
    decreases deps.len(),
{
    if deps.len() == 0 {
        assert(deps.push(d)[0] == d);
        assert(deps.push(d).drop_first() =~= Seq::<Rc<Package>>::empty());
        assert(dep_names_of(deps.push(d)) == seq![d.spec_name()] + d.spec_dep_names()
            + dep_names_of(Seq::<Rc<Package>>::empty()));
        assert(dep_names_of(deps.push(d)) =~= dep_names_of(deps) + (seq![d.spec_name()]
            + d.spec_dep_names()));
    } else {
        lemma_dep_names_snoc(deps.drop_first(), d);
        assert(deps.push(d)[0] == deps[0]);
        assert(deps.push(d).drop_first() =~= deps.drop_first().push(d));
        assert(dep_names_of(deps.push(d)) == seq![deps[0].spec_name()] + deps[0].spec_dep_names()
            + (dep_names_of(deps.drop_first()) + (seq![d.spec_name()] + d.spec_dep_names())));
        assert(seq![deps[0].spec_name()] + deps[0].spec_dep_names() + (dep_names_of(
            deps.drop_first(),
        ) + (seq![d.spec_name()] + d.spec_dep_names())) =~= (seq![deps[0].spec_name()]
            + deps[0].spec_dep_names() + dep_names_of(deps.drop_first())) + (seq![d.spec_name()]
            + d.spec_dep_names()));
    }
}

/// Walks a package's dependencies, appending each name to the accumulator
/// before descending into that dependency's own dependencies.
fn collect_deps(pkg: &Rc<Package>, acc: &mut Vec<String>)
    ensures
        final(acc)@.map_values(|s: String| s@) == old(acc)@.map_values(|s: String| s@)
            + pkg.spec_dep_names(),
    decreases *pkg,
{
    let ghost base = acc@.map_values(|s: String| s@);
    let ghost deps = pkg.spec_dependencies();
    let mut i: usize = 0;
    proof {
        assert(deps.take(0) =~= Seq::<Rc<Package>>::empty());
        assert(base + dep_names_of(deps.take(0)) =~= base);
    }
    while i < pkg.dependency_count()
        invariant
            0 <= i <= deps.len(),
            deps == pkg.spec_dependencies(),
            acc@.map_values(|s: String| s@) == base + dep_names_of(deps.take(i as int)),
        decreases deps.len() - i,
    {
        let dep = pkg.dependency_at(i);
        let ghost prev = acc@;
        let name_copy = dep.name.clone();
        acc.push(name_copy);
        proof {
            let ghost target = prev.map_values(|s: String| s@).push(dep.spec_name());
            assert forall|m: int| 0 <= m < acc@.len() implies acc@.map_values(
                |s: String| s@,
            )[m] == #[trigger] target[m] by {
                if m < prev.len() {
                    assert(acc@[m] == prev[m]);
                    assert(prev.map_values(|s: String| s@)[m] == prev[m]@);
                } else {
                    assert(acc@[m]@ == dep.spec_name());
                }
            }
            assert(acc@.map_values(|s: String| s@) =~= prev.map_values(|s: String| s@).push(
                dep.spec_name(),
            ));
        }
        proof {
            assert(decreases_to!(*pkg => *dep));
        }
        collect_deps(dep, acc);
        proof {
            lemma_dep_names_snoc(deps.take(i as int), deps[i as int]);
            assert(deps.take(i as int).push(deps[i as int]) =~= deps.take(i as int + 1));
            assert(acc@.map_values(|s: String| s@) =~= base + dep_names_of(
                deps.take(i as int + 1),
            ));
        }
        i = i + 1;
    }
    proof {
        assert(deps.take(deps.len() as int) =~= deps);
    }
}

impl Package {
    /// How many direct dependencies the package has.
    fn dependency_count(&self) -> (r: usize)
        ensures
            r == self.spec_dependencies().len(),
    {
        self.dependencies.len()
    }

    /// The direct dependency at the given position.
    fn dependency_at(&self, i: usize) -> (r: &Rc<Package>)
        requires
            i < self.spec_dependencies().len(),
        ensures
            *r == self.spec_dependencies()[i as int],
    {
        &self.dependencies[i]
    }
}

/// A counter whose value several owners can read and bump through a shared
/// handle; the handle's interior cell serializes each read-modify-write.
pub struct SharedCounter {
    value: i32,
}

impl SharedCounter {
    /// The counter's current value.
    pub closed spec fn spec_value(&self) -> int {
        self.value as int
    }

    /// Creates a counter at zero.
    pub fn new() -> (r: Self)
        ensures
            r.spec_value() == 0,
    {
        SharedCounter { value: 0 }
    }

    /// Adds one to the counter.
    pub fn increment(&mut self)
        requires
            old(self).spec_value() < i32::MAX,
        ensures
            final(self).spec_value() == old(self).spec_value() + 1,
    {
        self.value = self.value + 1;
    }

    /// Reads the counter.
    pub fn get(&self) -> (r: i32)
        ensures
            r == self.spec_value(),
    {
        self.value
    }
}

} // verus!
