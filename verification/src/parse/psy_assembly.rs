//! Reading an assembly section, one event at a time: its objects, each
//! with an identifier, the transforms of its instances and one section of
//! object data.  The step decides what each event means; the caller reads
//! the transforms and the object data it is told to read.
use vstd::prelude::*;
use crate::parse::data_tree::Event;
use crate::parse::psy::PsyError;
use crate::text::str_eq;

verus! {

/// The kinds of object data.
#[derive(Debug, Copy, Clone)]
pub enum ObjectKind {
    Assembly,
    MeshSurface,
    SphereLight,
    RectangleLight,
}

/// Where the reading of an assembly stands: between objects; after an
/// object opened at `object_offset`, before its object data, reading its
/// instances; inside an instance whose transforms start at index `start`;
/// before the close of an object whose data was read; or finished.
#[derive(Debug, Copy, Clone)]
pub enum AssemblyPhase {
    Objects,
    Instances { object_offset: usize },
    Transforms { object_offset: usize, start: usize },
    ObjectClose,
    Finished,
}

/// What to do after an event of an assembly section.
#[derive(Debug)]
pub enum AssemblyStep {
    /// Go on with the next event.
    Continue,
    /// Read this leaf's contents as the next transform, then go on.
    ReadTransform,
    /// Read the object data section that this event opens (up to and with
    /// its close), then go on.
    Parse(ObjectKind),
    /// The object closed: add it, under this name, with the transform
    /// ranges of its instances.
    AddObject { name: String, instances: Vec<(usize, usize)> },
    /// The assembly closed.
    Done,
    /// Reading failed.
    Failed(PsyError),
}

/// The reading of an assembly: where it stands, how many transforms were
/// read, and the name and instances of the object being read.
pub struct AssemblyReading {
    pub phase: AssemblyPhase,
    pub transform_count: usize,
    pub name: String,
    pub instances: Vec<(usize, usize)>,
}

/// `e` opens a section of type `name`.
pub open spec fn opens_named(e: Event, name: Seq<char>) -> bool {
    (e matches Event::InnerOpen { node_type, .. } && node_type@ == name)
}

/// `e` is a leaf of type `name`.
pub open spec fn leaf_of_type(e: Event, name: Seq<char>) -> bool {
    (e matches Event::Leaf { node_type, .. } && node_type@ == name)
}

/// The object data that `e` opens, if it opens any.
pub open spec fn object_kind(e: Event) -> Option<ObjectKind> {
    if opens_named(e, "Assembly"@) {
        Some(ObjectKind::Assembly)
    } else if opens_named(e, "MeshSurface"@) {
        Some(ObjectKind::MeshSurface)
    } else if opens_named(e, "SphereLight"@) {
        Some(ObjectKind::SphereLight)
    } else if opens_named(e, "RectangleLight"@) {
        Some(ObjectKind::RectangleLight)
    } else {
        None
    }
}

/// The events on which the reading stops unfinished: anything but an
/// `Object` or the close between objects; anything but a `Transform` leaf
/// or the close inside an instance; anything but the close after an
/// object's data; any event once finished.
pub open spec fn assembly_unfinished(phase: AssemblyPhase, e: Event) -> bool {
    match phase {
        AssemblyPhase::Objects => !opens_named(e, "Object"@) && !(e is InnerClose),
        AssemblyPhase::Instances { .. } => false,
        AssemblyPhase::Transforms { .. } => !leaf_of_type(e, "Transform"@) && !(e is InnerClose),
        AssemblyPhase::ObjectClose => !(e is InnerClose),
        AssemblyPhase::Finished => true,
    }
}

/// One step of reading an assembly from `s` on event `e` leaves `t` and
/// answers `r`.
pub open spec fn assembly_step_spec(s: AssemblyReading, t: AssemblyReading, e: Event, r: AssemblyStep) -> bool {
    match s.phase {
        AssemblyPhase::Objects => match e {
            Event::InnerOpen { ident, byte_offset, .. } => match ident {
                None => {
                    &&& t.phase == AssemblyPhase::Finished
                    &&& t.transform_count == s.transform_count
                    &&& (r matches AssemblyStep::Failed(PsyError::ExpectedIdent(o, m)) && o
                        == byte_offset && m@
                        == "'Object' types must have an identifier, but the identifier is missing."@)
                },
                Some(id) => {
                    &&& t.phase == (AssemblyPhase::Instances { object_offset: byte_offset })
                    &&& t.transform_count == s.transform_count
                    &&& t.name@ == id@
                    &&& t.instances@.len() == 0
                    &&& r is Continue
                },
            },
            _ => t.phase == AssemblyPhase::Finished && t.transform_count == s.transform_count
                && r is Done,
        },
        AssemblyPhase::Instances { object_offset } => {
            &&& t.transform_count == s.transform_count
            &&& t.name@ == s.name@
            &&& t.instances@ == s.instances@
            &&& if opens_named(e, "Instance"@) {
                t.phase == (AssemblyPhase::Transforms {
                    object_offset,
                    start: s.transform_count,
                }) && r is Continue
            } else if object_kind(e) is Some {
                t.phase == AssemblyPhase::ObjectClose && (r matches AssemblyStep::Parse(k) && k
                    == object_kind(e).unwrap())
            } else {
                &&& t.phase == AssemblyPhase::Finished
                &&& match e {
                    Event::InnerClose { byte_offset } => (r matches AssemblyStep::Failed(
                        PsyError::MissingNode(o, m),
                    ) && o == byte_offset && m@ == "Object contains no object data."@),
                    _ => (r matches AssemblyStep::Failed(PsyError::UnknownVariant(o, m)) && o
                        == object_offset && m@ == "Unknown data type for Object."@),
                }
            }
        },
        AssemblyPhase::Transforms { object_offset, start } => {
            &&& t.name@ == s.name@
            &&& if e is InnerClose {
                &&& t.phase == (AssemblyPhase::Instances { object_offset })
                &&& t.transform_count == s.transform_count
                &&& t.instances@ == s.instances@.push((start, s.transform_count))
                &&& r is Continue
            } else {
                &&& t.phase == s.phase
                &&& t.transform_count == s.transform_count + 1
                &&& t.instances@ == s.instances@
                &&& r is ReadTransform
            }
        },
        AssemblyPhase::ObjectClose => {
            &&& t.phase == AssemblyPhase::Objects
            &&& t.transform_count == s.transform_count
            &&& t.instances@.len() == 0
            &&& (r matches AssemblyStep::AddObject { name, instances } && name@ == s.name@
                && instances@ == s.instances@)
        },
        AssemblyPhase::Finished => false,
    }
}

/// Whether `e` opens a section of type `name`.
fn opens(e: &Event, name: &str) -> (r: bool)
    ensures
        r == opens_named(*e, name@),
{
    match e {
        Event::InnerOpen { node_type, .. } => str_eq(node_type.as_str(), name),
        _ => false,
    }
}

/// The object data that `e` opens, if it opens any.
fn kind_opened(e: &Event) -> (r: Option<ObjectKind>)
    ensures
        r == object_kind(*e),
{
    if opens(e, "Assembly") {
        Some(ObjectKind::Assembly)
    } else if opens(e, "MeshSurface") {
        Some(ObjectKind::MeshSurface)
    } else if opens(e, "SphereLight") {
        Some(ObjectKind::SphereLight)
    } else if opens(e, "RectangleLight") {
        Some(ObjectKind::RectangleLight)
    } else {
        None
    }
}

impl AssemblyReading {
    /// Nothing read yet.
    pub fn new() -> (s: AssemblyReading)
        ensures
            s.phase == AssemblyPhase::Objects,
            s.transform_count == 0,
            s.name@.len() == 0,
            s.instances@.len() == 0,
    {
        AssemblyReading {
            phase: AssemblyPhase::Objects,
            transform_count: 0,
            name: String::new(),
            instances: Vec::new(),
        }
    }

    /// Whether reading stops unfinished on `event`: the caller must not
    /// hand such an event to `assembly_event_step`.
    pub fn unfinished(&self, event: &Event) -> (r: bool)
        ensures
            r == assembly_unfinished(self.phase, *event),
    {
        let close = matches!(event, Event::InnerClose { .. });
        match self.phase {
            AssemblyPhase::Objects => !opens(event, "Object") && !close,
            AssemblyPhase::Instances { .. } => false,
            AssemblyPhase::Transforms { .. } => {
                let transform = match event {
                    Event::Leaf { node_type, .. } => str_eq(node_type.as_str(), "Transform"),
                    _ => false,
                };
                !transform && !close
            },
            AssemblyPhase::ObjectClose => !close,
            AssemblyPhase::Finished => true,
        }
    }

    /// One step of reading an assembly, on the next event.
    ///
    /// Between objects, an `Object` section opens the next object, which
    /// must have an identifier, and a close ends the assembly.  An object
    /// holds `Instance` sections, each a list of `Transform` leaves, and
    /// then one section of object data (an `Assembly`, `MeshSurface`,
    /// `SphereLight` or `RectangleLight`); a close in its place means the
    /// data is missing, anything else is of an unknown type.  After the
    /// data the object must close.
    pub fn assembly_event_step(&mut self, event: &Event, reader_offset: usize) -> (r:
        AssemblyStep)
        requires
            !assembly_unfinished(old(self).phase, *event),
            old(self).transform_count < usize::MAX,
        ensures
            assembly_step_spec(*old(self), *final(self), *event, r),
    {
        match self.phase {
            AssemblyPhase::Objects => {
                match event {
                    Event::InnerOpen { ident, byte_offset, .. } => {
                        match ident {
                            None => {
                                self.phase = AssemblyPhase::Finished;
                                AssemblyStep::Failed(
                                    PsyError::ExpectedIdent(
                                        *byte_offset,
                                        String::from_str(
                                            "'Object' types must have an identifier, but the identifier is missing.",
                                        ),
                                    ),
                                )
                            },
                            Some(id) => {
                                self.phase = AssemblyPhase::Instances {
                                    object_offset: *byte_offset,
                                };
                                self.name = id.clone();
                                self.instances = Vec::new();
                                AssemblyStep::Continue
                            },
                        }
                    },
                    _ => {
                        self.phase = AssemblyPhase::Finished;
                        AssemblyStep::Done
                    },
                }
            },
            AssemblyPhase::Instances { object_offset } => {
                if opens(event, "Instance") {
                    self.phase = AssemblyPhase::Transforms {
                        object_offset,
                        start: self.transform_count,
                    };
                    AssemblyStep::Continue
                } else {
                    match kind_opened(event) {
                        Some(k) => {
                            self.phase = AssemblyPhase::ObjectClose;
                            AssemblyStep::Parse(k)
                        },
                        None => {
                            self.phase = AssemblyPhase::Finished;
                            match event {
                                Event::InnerClose { byte_offset } => AssemblyStep::Failed(
                                    PsyError::MissingNode(
                                        *byte_offset,
                                        String::from_str("Object contains no object data."),
                                    ),
                                ),
                                _ => AssemblyStep::Failed(
                                    PsyError::UnknownVariant(
                                        object_offset,
                                        String::from_str("Unknown data type for Object."),
                                    ),
                                ),
                            }
                        },
                    }
                }
            },
            AssemblyPhase::Transforms { object_offset, start } => {
                match event {
                    Event::InnerClose { .. } => {
                        self.instances.push((start, self.transform_count));
                        self.phase = AssemblyPhase::Instances { object_offset };
                        AssemblyStep::Continue
                    },
                    _ => {
                        self.transform_count = self.transform_count + 1;
                        AssemblyStep::ReadTransform
                    },
                }
            },
            AssemblyPhase::ObjectClose => {
                let mut name = String::new();
                let mut instances: Vec<(usize, usize)> = Vec::new();
                std::mem::swap(&mut name, &mut self.name);
                std::mem::swap(&mut instances, &mut self.instances);
                self.phase = AssemblyPhase::Objects;
                AssemblyStep::AddObject { name, instances }
            },
            AssemblyPhase::Finished => vstd::pervasive::unreached(),
        }
    }
}

/// The type name of the sections that hold object data of kind `k`.
pub open spec fn kind_name(k: ObjectKind) -> Seq<char> {
    match k {
        ObjectKind::Assembly => "Assembly"@,
        ObjectKind::MeshSurface => "MeshSurface"@,
        ObjectKind::SphereLight => "SphereLight"@,
        ObjectKind::RectangleLight => "RectangleLight"@,
    }
}

/// An object's data is read as the kind its section's type names, and
/// only as that kind: after an object opened, a section of type
/// `kind_name(k)` is read as data of kind `k`, and whenever a step reads
/// the data as kind `k` the section it opened has type `kind_name(k)`.
pub proof fn law_object_data_read_as_named(
    s: AssemblyReading,
    t: AssemblyReading,
    e: Event,
    r: AssemblyStep,
    k: ObjectKind,
)
    requires
        s.phase is Instances,
        assembly_step_spec(s, t, e, r),
    ensures
        opens_named(e, kind_name(k)) ==> (r matches AssemblyStep::Parse(got) && got == k),
        (r matches AssemblyStep::Parse(got) && got == k) ==> opens_named(e, kind_name(k)),
{
    lemma_names_distinct();
    let ka = ObjectKind::Assembly;
    let km = ObjectKind::MeshSurface;
    let ks = ObjectKind::SphereLight;
    let kr = ObjectKind::RectangleLight;
    assert(kind_name(ka) == "Assembly"@ && kind_name(km) == "MeshSurface"@);
    assert(kind_name(ks) == "SphereLight"@ && kind_name(kr) == "RectangleLight"@);
    assert(kind_name(k) != "Instance"@);
    if opens_named(e, kind_name(k)) {
        assert(opens_named(e, kind_name(ka)) ==> kind_name(ka) == kind_name(k));
        assert(opens_named(e, kind_name(km)) ==> kind_name(km) == kind_name(k));
        assert(opens_named(e, kind_name(ks)) ==> kind_name(ks) == kind_name(k));
        assert(opens_named(e, kind_name(kr)) ==> kind_name(kr) == kind_name(k));
        assert(object_kind(e) == Some(k));
    }
    if let AssemblyStep::Parse(got) = r {
        assert(object_kind(e) == Some(got));
    }
}

/// The type names of an instance and of the four kinds of object data
/// differ from one another.
proof fn lemma_names_distinct()
    ensures
        forall|k: ObjectKind| kind_name(k) != "Instance"@,
        forall|k1: ObjectKind, k2: ObjectKind| kind_name(k1) == kind_name(k2) ==> k1 == k2,
{
    reveal_strlit("Instance");
    reveal_strlit("Assembly");
    reveal_strlit("MeshSurface");
    reveal_strlit("SphereLight");
    reveal_strlit("RectangleLight");
    let i = "Instance"@;
    let a = "Assembly"@;
    let m = "MeshSurface"@;
    let sl = "SphereLight"@;
    let rl = "RectangleLight"@;
    assert(i[0] != a[0] && i[0] != m[0] && i[0] != sl[0] && i[0] != rl[0]);
    assert(a[0] != m[0] && a[0] != sl[0] && a[0] != rl[0]);
    assert(m[0] != sl[0] && m[0] != rl[0] && sl[0] != rl[0]);
}

} // verus!
