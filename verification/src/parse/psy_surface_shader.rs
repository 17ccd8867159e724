//! Reading a surface shader section, one event at a time.  The step
//! decides what each event means; the caller reads the numbers and colors
//! in the leaves it is told to read.
use vstd::prelude::*;
use crate::parse::data_tree::Event;
use crate::parse::psy::PsyError;
use crate::text::str_eq;

verus! {

/// The kinds of surface shader.
#[derive(Debug, Copy, Clone)]
pub enum ShaderKind {
    Lambert,
    GGX,
    Emit,
}

/// The fields a shader section holds.
#[derive(Debug, Copy, Clone)]
pub enum ShaderField {
    Color,
    Roughness,
    Fresnel,
}

/// Where the reading of a shader section stands: before its type; before
/// the color of a Lambert or Emit shader; before the close of one; among
/// the fields of a GGX shader, with which of them were met; or finished.
#[derive(Debug, Copy, Clone)]
pub enum ShaderPhase {
    Start,
    ColorNext(ShaderKind),
    CloseNext(ShaderKind),
    Fields { color: bool, roughness: bool, fresnel: bool },
    Finished,
}

/// What to do after an event of a shader section.
#[derive(Debug)]
pub enum ShaderStep {
    /// Go on with the next event.
    Continue,
    /// Read this leaf's contents as the field, then go on.
    Read(ShaderField),
    /// The section closed: the shader of this kind is complete.
    Done(ShaderKind),
    /// Reading failed.
    Failed(PsyError),
}

/// The reading of a shader section.
pub struct ShaderReading {
    pub phase: ShaderPhase,
}

/// `e` is a leaf of type `name`.
pub open spec fn is_leaf_named(e: Event, name: Seq<char>) -> bool {
    (e matches Event::Leaf { node_type, .. } && node_type@ == name)
}

/// `r` fails with a missing-node error at `offset` with message `m`.
pub open spec fn missing_node(r: ShaderStep, offset: usize, m: Seq<char>) -> bool {
    (r matches ShaderStep::Failed(PsyError::MissingNode(o, msg)) && o == offset && msg@ == m)
}

/// The events on which the reading stops unfinished: anything but the
/// `Type` leaf first; anything but the close after a Lambert or Emit
/// shader's color; anything but a close or one of its fields inside a GGX
/// shader; any event once finished.
pub open spec fn shader_unfinished(phase: ShaderPhase, e: Event) -> bool {
    match phase {
        ShaderPhase::Start => !is_leaf_named(e, "Type"@),
        ShaderPhase::ColorNext(_) => false,
        ShaderPhase::CloseNext(_) => !(e is InnerClose),
        ShaderPhase::Fields { .. } => !(e is InnerClose) && !is_leaf_named(e, "Color"@)
            && !is_leaf_named(e, "Roughness"@) && !is_leaf_named(e, "Fresnel"@),
        ShaderPhase::Finished => true,
    }
}

/// One step of reading a shader section from `phase` on event `e` goes to
/// `next` and answers `r`; `reader_offset` is where the reader stands.
pub open spec fn shader_step_spec(
    phase: ShaderPhase,
    next: ShaderPhase,
    e: Event,
    reader_offset: usize,
    r: ShaderStep,
) -> bool {
    match phase {
        ShaderPhase::Start => match e {
            Event::Leaf { contents, byte_offset, .. } => if contents@ == "Lambert"@ {
                next == ShaderPhase::ColorNext(ShaderKind::Lambert) && r is Continue
            } else if contents@ == "GGX"@ {
                next == (ShaderPhase::Fields { color: false, roughness: false, fresnel: false })
                    && r is Continue
            } else if contents@ == "Emit"@ {
                next == ShaderPhase::ColorNext(ShaderKind::Emit) && r is Continue
            } else {
                next == ShaderPhase::Finished && missing_node(
                    r,
                    byte_offset,
                    "Unknown SurfaceShader type."@,
                )
            },
            _ => false,
        },
        ShaderPhase::ColorNext(k) => if is_leaf_named(e, "Color"@) {
            next == ShaderPhase::CloseNext(k) && (r matches ShaderStep::Read(ShaderField::Color))
        } else {
            next == ShaderPhase::Finished && missing_node(
                r,
                reader_offset,
                if k is Emit {
                    "Expected a Color field in Emit SurfaceShader."@
                } else {
                    "Expected a Color field in Lambert SurfaceShader."@
                },
            )
        },
        ShaderPhase::CloseNext(k) => next == ShaderPhase::Finished && (r matches ShaderStep::Done(
            d,
        ) && d == k),
        ShaderPhase::Fields { color, roughness, fresnel } => if is_leaf_named(e, "Color"@) {
            next == (ShaderPhase::Fields { color: true, roughness, fresnel }) && (r matches ShaderStep::Read(
                ShaderField::Color,
            ))
        } else if is_leaf_named(e, "Roughness"@) {
            next == (ShaderPhase::Fields { color, roughness: true, fresnel }) && (r matches ShaderStep::Read(
                ShaderField::Roughness,
            ))
        } else if is_leaf_named(e, "Fresnel"@) {
            next == (ShaderPhase::Fields { color, roughness, fresnel: true }) && (r matches ShaderStep::Read(
                ShaderField::Fresnel,
            ))
        } else {
            &&& next == ShaderPhase::Finished
            &&& if color && roughness && fresnel {
                r matches ShaderStep::Done(ShaderKind::GGX)
            } else {
                missing_node(
                    r,
                    reader_offset,
                    "GGX shader requires one of each field: Color, Roughness, Fresnel."@,
                )
            }
        },
        ShaderPhase::Finished => false,
    }
}

/// Whether `e` is a leaf of type `name`.
fn leaf_named(e: &Event, name: &str) -> (r: bool)
    ensures
        r == is_leaf_named(*e, name@),
{
    match e {
        Event::Leaf { node_type, .. } => str_eq(node_type.as_str(), name),
        _ => false,
    }
}

fn missing(offset: usize, message: &str) -> (r: ShaderStep)
    ensures
        missing_node(r, offset, message@),
{
    ShaderStep::Failed(PsyError::MissingNode(offset, String::from_str(message)))
}

impl ShaderReading {
    /// Nothing read yet.
    pub fn new() -> (s: ShaderReading)
        ensures
            s.phase == ShaderPhase::Start,
    {
        ShaderReading { phase: ShaderPhase::Start }
    }

    /// Whether reading stops unfinished on `event`: the caller must not
    /// hand such an event to `step`.
    pub fn unfinished(&self, event: &Event) -> (r: bool)
        ensures
            r == shader_unfinished(self.phase, *event),
    {
        match self.phase {
            ShaderPhase::Start => !leaf_named(event, "Type"),
            ShaderPhase::ColorNext(_) => false,
            ShaderPhase::CloseNext(_) => !matches!(event, Event::InnerClose { .. }),
            ShaderPhase::Fields { .. } => !matches!(event, Event::InnerClose { .. }) && !leaf_named(
                event,
                "Color",
            ) && !leaf_named(event, "Roughness") && !leaf_named(event, "Fresnel"),
            ShaderPhase::Finished => true,
        }
    }

    /// One step of reading a shader section, on the next event.
    ///
    /// First a `Type` leaf names the shader: `Lambert`, `GGX` or `Emit`,
    /// else the shader type is unknown.  Lambert and Emit shaders need a
    /// `Color` leaf next, then the close of the section.  A GGX shader reads
    /// `Color`, `Roughness` and `Fresnel` leaves until the section closes,
    /// and needs all three by then.
    pub fn step(&mut self, event: &Event, reader_offset: usize) -> (r: ShaderStep)
        requires
            !shader_unfinished(old(self).phase, *event),
        ensures
            shader_step_spec(old(self).phase, final(self).phase, *event, reader_offset, r),
    {
        match self.phase {
            ShaderPhase::Start => {
                match event {
                    Event::Leaf { contents, byte_offset, .. } => {
                        if str_eq(contents.as_str(), "Lambert") {
                            self.phase = ShaderPhase::ColorNext(ShaderKind::Lambert);
                            ShaderStep::Continue
                        } else if str_eq(contents.as_str(), "GGX") {
                            self.phase = ShaderPhase::Fields {
                                color: false,
                                roughness: false,
                                fresnel: false,
                            };
                            ShaderStep::Continue
                        } else if str_eq(contents.as_str(), "Emit") {
                            self.phase = ShaderPhase::ColorNext(ShaderKind::Emit);
                            ShaderStep::Continue
                        } else {
                            self.phase = ShaderPhase::Finished;
                            missing(*byte_offset, "Unknown SurfaceShader type.")
                        }
                    },
                    _ => vstd::pervasive::unreached(),
                }
            },
            ShaderPhase::ColorNext(k) => {
                if leaf_named(event, "Color") {
                    self.phase = ShaderPhase::CloseNext(k);
                    ShaderStep::Read(ShaderField::Color)
                } else {
                    self.phase = ShaderPhase::Finished;
                    match k {
                        ShaderKind::Emit => missing(
                            reader_offset,
                            "Expected a Color field in Emit SurfaceShader.",
                        ),
                        _ => missing(reader_offset, "Expected a Color field in Lambert SurfaceShader."),
                    }
                }
            },
            ShaderPhase::CloseNext(k) => {
                self.phase = ShaderPhase::Finished;
                ShaderStep::Done(k)
            },
            ShaderPhase::Fields { color, roughness, fresnel } => {
                if leaf_named(event, "Color") {
                    self.phase = ShaderPhase::Fields { color: true, roughness, fresnel };
                    ShaderStep::Read(ShaderField::Color)
                } else if leaf_named(event, "Roughness") {
                    self.phase = ShaderPhase::Fields { color, roughness: true, fresnel };
                    ShaderStep::Read(ShaderField::Roughness)
                } else if leaf_named(event, "Fresnel") {
                    self.phase = ShaderPhase::Fields { color, roughness, fresnel: true };
                    ShaderStep::Read(ShaderField::Fresnel)
                } else {
                    self.phase = ShaderPhase::Finished;
                    if color && roughness && fresnel {
                        ShaderStep::Done(ShaderKind::GGX)
                    } else {
                        missing(
                            reader_offset,
                            "GGX shader requires one of each field: Color, Roughness, Fresnel.",
                        )
                    }
                }
            },
            ShaderPhase::Finished => vstd::pervasive::unreached(),
        }
    }
}

/// The name of shader kind `k` in a `Type` leaf.
pub open spec fn kind_text(k: ShaderKind) -> Seq<char> {
    match k {
        ShaderKind::Lambert => "Lambert"@,
        ShaderKind::GGX => "GGX"@,
        ShaderKind::Emit => "Emit"@,
    }
}

/// A Lambert or Emit shader section that names its kind in its `Type`
/// leaf, then gives its `Color`, then closes, is read as a complete shader
/// of the kind its `Type` leaf names.
pub proof fn law_shader_kind_is_the_named_kind(
    k: ShaderKind,
    p1: ShaderPhase,
    p2: ShaderPhase,
    p3: ShaderPhase,
    e1: Event,
    e2: Event,
    e3: Event,
    o1: usize,
    o2: usize,
    o3: usize,
    r1: ShaderStep,
    r2: ShaderStep,
    r3: ShaderStep,
)
    requires
        !(k is GGX),
        e1 matches Event::Leaf { contents, .. } && contents@ == kind_text(k),
        shader_step_spec(ShaderPhase::Start, p1, e1, o1, r1),
        is_leaf_named(e2, "Color"@),
        shader_step_spec(p1, p2, e2, o2, r2),
        e3 is InnerClose,
        shader_step_spec(p2, p3, e3, o3, r3),
    ensures
        r3 matches ShaderStep::Done(got) && got == k,
{
    reveal_strlit("Lambert");
    reveal_strlit("GGX");
    reveal_strlit("Emit");
    assert("Lambert"@[0] != "GGX"@[0] && "Lambert"@[0] != "Emit"@[0] && "GGX"@[0] != "Emit"@[0]);
}

/// Each shader kind has its own name in a `Type` leaf.
pub proof fn law_shader_kind_names_distinct(k1: ShaderKind, k2: ShaderKind)
    ensures
        kind_text(k1) == kind_text(k2) ==> k1 == k2,
{
    reveal_strlit("Lambert");
    reveal_strlit("GGX");
    reveal_strlit("Emit");
    assert("Lambert"@[0] != "GGX"@[0] && "Lambert"@[0] != "Emit"@[0] && "GGX"@[0] != "Emit"@[0]);
}

} // verus!
