//! Instances: placements of an object or of a nested assembly in an
//! assembly, with the range of transforms that move them.
use vstd::prelude::*;
use vstd::string::*;

verus! {

/// What an instance places.
#[derive(Debug, Copy, Clone)]
pub enum InstanceType {
    Object,
    Assembly,
}

/// A placement of an object or an assembly.
///
/// `data_index` indexes the assembly's objects or its nested assemblies,
/// depending on `instance_type`; `id` is the instance's own index; the
/// transforms, where there are any, are the assembly's transforms in the
/// half-open range `transform_indices`.
#[derive(Debug, Copy, Clone)]
pub struct Instance {
    pub instance_type: InstanceType,
    pub data_index: usize,
    pub id: usize,
    pub transform_indices: Option<(usize, usize)>,
}

} // verus!

verus! {

/// The texts of a list of names.
pub open spec fn names_v(names: Seq<String>) -> Seq<Seq<char>> {
    Seq::new(names.len(), |i: int| names[i]@)
}

/// `name` is one of `names`.
pub open spec fn has_name(names: Seq<Seq<char>>, name: Seq<char>) -> bool {
    exists|i: int| 0 <= i < names.len() && names[i] == name
}

/// No name occurs twice, within a list or across the two lists.
pub open spec fn names_distinct(a: Seq<Seq<char>>, b: Seq<Seq<char>>) -> bool {
    &&& forall|i: int, j: int| 0 <= i < j < a.len() ==> a[i] != a[j]
    &&& forall|i: int, j: int| 0 <= i < j < b.len() ==> b[i] != b[j]
    &&& forall|i: int, j: int| 0 <= i < a.len() && 0 <= j < b.len() ==> a[i] != b[j]
}

/// The bookkeeping of building an assembly: the names of its objects and
/// nested assemblies (each at the index of the object or assembly it
/// names), its instances, and how many transforms they use.  The objects,
/// assemblies and transforms themselves are kept by the caller, in the
/// same order.
pub struct AssemblyBuilder {
    instances: Vec<Instance>,
    xform_count: usize,
    object_names: Vec<String>,
    assembly_names: Vec<String>,
}

impl AssemblyBuilder {
    /// The names of the objects, by index.
    pub closed spec fn objects(&self) -> Seq<Seq<char>> {
        names_v(self.object_names@)
    }

    /// The names of the nested assemblies, by index.
    pub closed spec fn assemblies(&self) -> Seq<Seq<char>> {
        names_v(self.assembly_names@)
    }

    /// The instances, in the order they were added.
    pub closed spec fn instance_list(&self) -> Seq<Instance> {
        self.instances@
    }

    /// The number of transforms the instances use.
    pub closed spec fn transforms(&self) -> nat {
        self.xform_count as nat
    }

    /// No name is used twice.
    pub open spec fn wf(&self) -> bool {
        names_distinct(self.objects(), self.assemblies())
    }

    /// An empty assembly.
    pub fn new() -> (b: AssemblyBuilder)
        ensures
            b.wf(),
            b.objects() == Seq::<Seq<char>>::empty(),
            b.assemblies() == Seq::<Seq<char>>::empty(),
            b.instance_list() == Seq::<Instance>::empty(),
            b.transforms() == 0,
    {
        let b = AssemblyBuilder {
            instances: Vec::new(),
            xform_count: 0,
            object_names: Vec::new(),
            assembly_names: Vec::new(),
        };
        proof {
            assert(b.objects() =~= Seq::<Seq<char>>::empty());
            assert(b.assemblies() =~= Seq::<Seq<char>>::empty());
        }
        b
    }

    /// Whether an object or a nested assembly has the name `name`.
    pub fn name_exists(&self, name: &str) -> (r: bool)
        ensures
            r == (has_name(self.objects(), name@) || has_name(self.assemblies(), name@)),
    {
        find(&self.object_names, name).is_some() || find(&self.assembly_names, name).is_some()
    }

    /// Records an object named `name`, a name not used yet.
    pub fn add_object(&mut self, name: &str)
        requires
            old(self).wf(),
            !has_name(old(self).objects(), name@),
            !has_name(old(self).assemblies(), name@),
        ensures
            final(self).wf(),
            final(self).objects() == old(self).objects().push(name@),
            final(self).assemblies() == old(self).assemblies(),
            final(self).instance_list() == old(self).instance_list(),
            final(self).transforms() == old(self).transforms(),
    {
        self.object_names.push(String::from_str(name));
        proof {
            assert(self.objects() =~= old(self).objects().push(name@));
            assert(self.assemblies() =~= old(self).assemblies());
        }
    }

    /// Records a nested assembly named `name`, a name not used yet.
    pub fn add_assembly(&mut self, name: &str)
        requires
            old(self).wf(),
            !has_name(old(self).objects(), name@),
            !has_name(old(self).assemblies(), name@),
        ensures
            final(self).wf(),
            final(self).assemblies() == old(self).assemblies().push(name@),
            final(self).objects() == old(self).objects(),
            final(self).instance_list() == old(self).instance_list(),
            final(self).transforms() == old(self).transforms(),
    {
        self.assembly_names.push(String::from_str(name));
        proof {
            assert(self.assemblies() =~= old(self).assemblies().push(name@));
            assert(self.objects() =~= old(self).objects());
        }
    }

    /// Adds an instance of the object or nested assembly named `name`,
    /// with `xforms` transforms if it has any: they take the next
    /// transform indices.  The name must exist.
    pub fn add_instance(&mut self, name: &str, xforms: Option<usize>)
        requires
            old(self).wf(),
            has_name(old(self).objects(), name@) || has_name(old(self).assemblies(), name@),
            xforms matches Some(n) ==> old(self).transforms() + n <= usize::MAX,
        ensures
            final(self).wf(),
            final(self).objects() == old(self).objects(),
            final(self).assemblies() == old(self).assemblies(),
            final(self).instance_list().len() == old(self).instance_list().len() + 1,
            final(self).instance_list().drop_last() == old(self).instance_list(),
            ({
                let inst = final(self).instance_list().last();
                &&& inst.id == old(self).instance_list().len()
                &&& if has_name(old(self).objects(), name@) {
                    &&& inst.instance_type is Object
                    &&& inst.data_index < old(self).objects().len()
                    &&& old(self).objects()[inst.data_index as int] == name@
                } else {
                    &&& inst.instance_type is Assembly
                    &&& inst.data_index < old(self).assemblies().len()
                    &&& old(self).assemblies()[inst.data_index as int] == name@
                }
                &&& match xforms {
                    Some(n) => inst.transform_indices == Some(
                        (old(self).transforms() as usize, (old(self).transforms() + n) as usize),
                    ) && final(self).transforms() == old(self).transforms() + n,
                    None => inst.transform_indices is None && final(self).transforms()
                        == old(self).transforms(),
                }
            }),
    {
        let transform_indices = match xforms {
            Some(n) => Some((self.xform_count, self.xform_count + n)),
            None => None,
        };
        let instance = match find(&self.object_names, name) {
            Some(i) => Instance {
                instance_type: InstanceType::Object,
                data_index: i,
                id: self.instances.len(),
                transform_indices,
            },
            None => {
                let i = match find(&self.assembly_names, name) {
                    Some(i) => i,
                    None => vstd::pervasive::unreached(),
                };
                Instance {
                    instance_type: InstanceType::Assembly,
                    data_index: i,
                    id: self.instances.len(),
                    transform_indices,
                }
            },
        };
        self.instances.push(instance);
        if let Some(n) = xforms {
            self.xform_count = self.xform_count + n;
        }
        proof {
            assert(self.instances@.drop_last() =~= old(self).instances@);
        }
    }

    /// The instances, in the order they were added.
    pub fn instances(&self) -> (r: &Vec<Instance>)
        ensures
            r@ == self.instance_list(),
    {
        &self.instances
    }
}

/// The index of `name` in `names`, if it is there.
fn find(names: &Vec<String>, name: &str) -> (r: Option<usize>)
    ensures
        match r {
            Some(i) => i < names@.len() && names_v(names@)[i as int] == name@,
            None => !has_name(names_v(names@), name@),
        },
{
    let mut i: usize = 0;
    while i < names.len()
        invariant
            i <= names@.len(),
            forall|k: int| 0 <= k < i ==> names_v(names@)[k] != name@,
        decreases names@.len() - i,
    {
        if crate::text::str_eq(names[i].as_str(), name) {
            return Some(i);
        }
        i += 1;
    }
    None
}

} // verus!
