//! Signal-rate rules, the registry of generator names, and factory errors.
use crate::text::{decimal, push_decimal, same_text};
use vstd::prelude::*;

verus! {

/// Whether a block holds one value per sample or a single value for the
/// whole block.
#[derive(Debug, Clone, Copy, PartialEq, Eq, Structural)]
pub enum Rate {
    Sample,
    Control,
}

/// Rate of a generator that folds inputs of the given rates: per-sample as
/// soon as one input is, and also when there is no input at all.
pub open spec fn folded_rate(rates: Seq<Rate>) -> Rate {
    if rates.len() > 0 && forall|i: int| 0 <= i < rates.len() ==> rates[i] == Rate::Control {
        Rate::Control
    } else {
        Rate::Sample
    }
}

impl Rate {
    /// Rate of the combination of two blocks.
    pub fn combine(self, other: Rate) -> (r: Rate)
        ensures
            r == Rate::Control <==> (self == Rate::Control && other == Rate::Control),
    {
        if self == Rate::Control && other == Rate::Control {
            Rate::Control
        } else {
            Rate::Sample
        }
    }
}

/// Output rate of `add`, `mul`, `rel` and `ifelse` over inputs of the given
/// rates.
pub fn fold_rates(rates: &Vec<Rate>) -> (r: Rate)
    ensures
        r == folded_rate(rates@),
{
    if rates.len() == 0 {
        return Rate::Sample;
    }
    let mut i: usize = 0;
    while i < rates.len()
        invariant
            i <= rates@.len(),
            forall|j: int| 0 <= j < i ==> rates@[j] == Rate::Control,
        decreases rates@.len() - i,
    {
        if rates[i] == Rate::Sample {
            return Rate::Sample;
        }
        i += 1;
    }
    Rate::Control
}

/// Number of samples a per-sample combination may write: its own length,
/// cut down to the length of every per-sample input.
pub open spec fn sample_bound_spec(own: nat, inputs: Seq<(Rate, usize)>) -> nat
    decreases inputs.len(),
{
    if inputs.len() == 0 {
        own
    } else {
        let rest = sample_bound_spec(own, inputs.drop_last());
        let (rate, len) = inputs.last();
        if rate == Rate::Sample && (len as nat) < rest {
            len as nat
        } else {
            rest
        }
    }
}

/// Computes [`sample_bound_spec`]: the minimum of `own` and of the lengths of
/// the per-sample inputs.
pub fn sample_bound(own: usize, inputs: &Vec<(Rate, usize)>) -> (r: usize)
    ensures
        r == sample_bound_spec(own as nat, inputs@),
        r <= own,
        forall|i: int|
            0 <= i < inputs@.len() && inputs@[i].0 == Rate::Sample ==> r <= inputs@[i].1,
{
    let mut r = own;
    let mut i: usize = 0;
    while i < inputs.len()
        invariant
            i <= inputs@.len(),
            r == sample_bound_spec(own as nat, inputs@.subrange(0, i as int)),
            r <= own,
            forall|j: int| 0 <= j < i && inputs@[j].0 == Rate::Sample ==> r <= inputs@[j].1,
        decreases inputs@.len() - i,
    {
        let (rate, len) = inputs[i];
        assert(inputs@.subrange(0, i + 1).drop_last() =~= inputs@.subrange(0, i as int));
        if rate == Rate::Sample && len < r {
            r = len;
        }
        i += 1;
    }
    assert(inputs@.subrange(0, inputs@.len() as int) =~= inputs@);
    r
}

/// The generators that a source text can name.
#[derive(Debug, Clone, Copy, PartialEq, Eq, Structural)]
pub enum FactoryKind {
    Param,
    Add,
    Mul,
    Negate,
    Reciprocate,
    Rel,
    IfElse,
    ControlRate,
    SampleRate,
    LutData,
    LutGen,
    Sine,
    Saw,
    Triangle,
    Square,
    Noise,
    Dahdsr,
}

/// The generator registered under `name`, if any.
pub open spec fn factory_named(name: Seq<char>) -> Option<FactoryKind> {
    if name == "param"@ {
        Some(FactoryKind::Param)
    } else     if name == "add"@ {
        Some(FactoryKind::Add)
    } else     if name == "mul"@ {
        Some(FactoryKind::Mul)
    } else     if name == "negate"@ {
        Some(FactoryKind::Negate)
    } else     if name == "reciprocate"@ {
        Some(FactoryKind::Reciprocate)
    } else     if name == "rel"@ {
        Some(FactoryKind::Rel)
    } else     if name == "ifelse"@ {
        Some(FactoryKind::IfElse)
    } else     if name == "controlrate"@ {
        Some(FactoryKind::ControlRate)
    } else     if name == "samplerate"@ {
        Some(FactoryKind::SampleRate)
    } else     if name == "lutdata"@ {
        Some(FactoryKind::LutData)
    } else     if name == "lutgen"@ {
        Some(FactoryKind::LutGen)
    } else     if name == "sine"@ {
        Some(FactoryKind::Sine)
    } else     if name == "saw"@ {
        Some(FactoryKind::Saw)
    } else     if name == "triangle"@ {
        Some(FactoryKind::Triangle)
    } else     if name == "square"@ {
        Some(FactoryKind::Square)
    } else     if name == "noise"@ {
        Some(FactoryKind::Noise)
    } else     if name == "dahdsr"@ {
        Some(FactoryKind::Dahdsr)
    } else {
        None
    }
}

/// The name under which a generator is registered.
pub open spec fn factory_name(k: FactoryKind) -> Seq<char> {
    match k {
        FactoryKind::Param => "param"@,
        FactoryKind::Add => "add"@,
        FactoryKind::Mul => "mul"@,
        FactoryKind::Negate => "negate"@,
        FactoryKind::Reciprocate => "reciprocate"@,
        FactoryKind::Rel => "rel"@,
        FactoryKind::IfElse => "ifelse"@,
        FactoryKind::ControlRate => "controlrate"@,
        FactoryKind::SampleRate => "samplerate"@,
        FactoryKind::LutData => "lutdata"@,
        FactoryKind::LutGen => "lutgen"@,
        FactoryKind::Sine => "sine"@,
        FactoryKind::Saw => "saw"@,
        FactoryKind::Triangle => "triangle"@,
        FactoryKind::Square => "square"@,
        FactoryKind::Noise => "noise"@,
        FactoryKind::Dahdsr => "dahdsr"@,
    }
}

impl FactoryKind {
    /// Looks a generator up by name.
    pub fn from_name(name: &str) -> (r: Option<FactoryKind>)
        ensures
            r == factory_named(name@),
    {
        if same_text(name, "param") {
            Some(FactoryKind::Param)
        } else         if same_text(name, "add") {
            Some(FactoryKind::Add)
        } else         if same_text(name, "mul") {
            Some(FactoryKind::Mul)
        } else         if same_text(name, "negate") {
            Some(FactoryKind::Negate)
        } else         if same_text(name, "reciprocate") {
            Some(FactoryKind::Reciprocate)
        } else         if same_text(name, "rel") {
            Some(FactoryKind::Rel)
        } else         if same_text(name, "ifelse") {
            Some(FactoryKind::IfElse)
        } else         if same_text(name, "controlrate") {
            Some(FactoryKind::ControlRate)
        } else         if same_text(name, "samplerate") {
            Some(FactoryKind::SampleRate)
        } else         if same_text(name, "lutdata") {
            Some(FactoryKind::LutData)
        } else         if same_text(name, "lutgen") {
            Some(FactoryKind::LutGen)
        } else         if same_text(name, "sine") {
            Some(FactoryKind::Sine)
        } else         if same_text(name, "saw") {
            Some(FactoryKind::Saw)
        } else         if same_text(name, "triangle") {
            Some(FactoryKind::Triangle)
        } else         if same_text(name, "square") {
            Some(FactoryKind::Square)
        } else         if same_text(name, "noise") {
            Some(FactoryKind::Noise)
        } else         if same_text(name, "dahdsr") {
            Some(FactoryKind::Dahdsr)
        } else {
            None
        }
    }

    /// The name the generator is registered under.
    pub fn name(&self) -> (r: &'static str)
        ensures
            r@ == factory_name(*self),
    {
        match self {
            FactoryKind::Param => "param",
            FactoryKind::Add => "add",
            FactoryKind::Mul => "mul",
            FactoryKind::Negate => "negate",
            FactoryKind::Reciprocate => "reciprocate",
            FactoryKind::Rel => "rel",
            FactoryKind::IfElse => "ifelse",
            FactoryKind::ControlRate => "controlrate",
            FactoryKind::SampleRate => "samplerate",
            FactoryKind::LutData => "lutdata",
            FactoryKind::LutGen => "lutgen",
            FactoryKind::Sine => "sine",
            FactoryKind::Saw => "saw",
            FactoryKind::Triangle => "triangle",
            FactoryKind::Square => "square",
            FactoryKind::Noise => "noise",
            FactoryKind::Dahdsr => "dahdsr",
        }
    }
}

/// Every registered generator, once each.
pub fn all_factories() -> (r: Vec<FactoryKind>)
    ensures
        r@.len() == 17,
        forall|k: FactoryKind| r@.contains(k),
{
    let mut r: Vec<FactoryKind> = Vec::new();
    r.push(FactoryKind::Param);
    r.push(FactoryKind::Add);
    r.push(FactoryKind::Mul);
    r.push(FactoryKind::Negate);
    r.push(FactoryKind::Reciprocate);
    r.push(FactoryKind::Rel);
    r.push(FactoryKind::IfElse);
    r.push(FactoryKind::ControlRate);
    r.push(FactoryKind::SampleRate);
    r.push(FactoryKind::LutData);
    r.push(FactoryKind::LutGen);
    r.push(FactoryKind::Sine);
    r.push(FactoryKind::Saw);
    r.push(FactoryKind::Triangle);
    r.push(FactoryKind::Square);
    r.push(FactoryKind::Noise);
    r.push(FactoryKind::Dahdsr);
    proof {
        assert forall|k: FactoryKind| r@.contains(k) by {
            match k {
                FactoryKind::Param => assert(r@[0] == k),
                FactoryKind::Add => assert(r@[1] == k),
                FactoryKind::Mul => assert(r@[2] == k),
                FactoryKind::Negate => assert(r@[3] == k),
                FactoryKind::Reciprocate => assert(r@[4] == k),
                FactoryKind::Rel => assert(r@[5] == k),
                FactoryKind::IfElse => assert(r@[6] == k),
                FactoryKind::ControlRate => assert(r@[7] == k),
                FactoryKind::SampleRate => assert(r@[8] == k),
                FactoryKind::LutData => assert(r@[9] == k),
                FactoryKind::LutGen => assert(r@[10] == k),
                FactoryKind::Sine => assert(r@[11] == k),
                FactoryKind::Saw => assert(r@[12] == k),
                FactoryKind::Triangle => assert(r@[13] == k),
                FactoryKind::Square => assert(r@[14] == k),
                FactoryKind::Noise => assert(r@[15] == k),
                FactoryKind::Dahdsr => assert(r@[16] == k),
            }
        }
    }
    r
}

/// A comparison made by `rel`.
#[derive(Debug, Clone, Copy, PartialEq, Eq, Structural)]
pub enum RelOp {
    Greater,
    GreaterEqual,
    Equal,
    NotEqual,
    LessEqual,
    Less,
}

/// The comparison an operator string names; anything unknown compares for
/// equality.
pub open spec fn rel_op_of(s: Seq<char>) -> RelOp {
    if s == ">"@ {
        RelOp::Greater
    } else if s == ">="@ {
        RelOp::GreaterEqual
    } else if s == "!="@ {
        RelOp::NotEqual
    } else if s == "<="@ {
        RelOp::LessEqual
    } else if s == "<"@ {
        RelOp::Less
    } else {
        RelOp::Equal
    }
}

/// The operator string of a comparison.
pub open spec fn rel_op_text(op: RelOp) -> Seq<char> {
    match op {
        RelOp::Greater => ">"@,
        RelOp::GreaterEqual => ">="@,
        RelOp::Equal => "=="@,
        RelOp::NotEqual => "!="@,
        RelOp::LessEqual => "<="@,
        RelOp::Less => "<"@,
    }
}

impl RelOp {
    /// The comparison named by an operator string.
    pub fn from_text(s: &str) -> (r: RelOp)
        ensures
            r == rel_op_of(s@),
    {
        if same_text(s, ">") {
            RelOp::Greater
        } else if same_text(s, ">=") {
            RelOp::GreaterEqual
        } else if same_text(s, "!=") {
            RelOp::NotEqual
        } else if same_text(s, "<=") {
            RelOp::LessEqual
        } else if same_text(s, "<") {
            RelOp::Less
        } else {
            RelOp::Equal
        }
    }

    /// The operator string, as the parser hands it to `rel`.
    pub fn to_param_string(&self) -> (r: &'static str)
        ensures
            r@ == rel_op_text(*self),
    {
        match self {
            RelOp::Greater => ">",
            RelOp::GreaterEqual => ">=",
            RelOp::Equal => "==",
            RelOp::NotEqual => "!=",
            RelOp::LessEqual => "<=",
            RelOp::Less => "<",
        }
    }

    /// Whether the comparison holds, given whether the left side is below,
    /// equal to, or above the right one.  `None` stands for unordered
    /// values (a NaN), for which no comparison holds.
    pub fn holds(&self, order: Option<std::cmp::Ordering>) -> (r: bool)
        ensures
            r == match order {
                None => false,
                Some(o) => match *self {
                    RelOp::Greater => o == std::cmp::Ordering::Greater,
                    RelOp::GreaterEqual => o != std::cmp::Ordering::Less,
                    RelOp::Equal => o == std::cmp::Ordering::Equal,
                    RelOp::NotEqual => o != std::cmp::Ordering::Equal,
                    RelOp::LessEqual => o != std::cmp::Ordering::Greater,
                    RelOp::Less => o == std::cmp::Ordering::Less,
                },
            },
    {
        match order {
            None => false,
            Some(o) => match self {
                RelOp::Greater => match o {
                    std::cmp::Ordering::Greater => true,
                    _ => false,
                },
                RelOp::GreaterEqual => match o {
                    std::cmp::Ordering::Less => false,
                    _ => true,
                },
                RelOp::Equal => match o {
                    std::cmp::Ordering::Equal => true,
                    _ => false,
                },
                RelOp::NotEqual => match o {
                    std::cmp::Ordering::Equal => false,
                    _ => true,
                },
                RelOp::LessEqual => match o {
                    std::cmp::Ordering::Greater => false,
                    _ => true,
                },
                RelOp::Less => match o {
                    std::cmp::Ordering::Less => true,
                    _ => false,
                },
            },
        }
    }
}

/// The six phases of the delay-attack-hold-decay-sustain-release envelope.
#[derive(Debug, Clone, Copy, PartialEq, Eq, Structural)]
pub enum Phase {
    Delay,
    Attack,
    Hold,
    Decay,
    Sustain,
    Release,
}

/// Phase after reading the trigger input at the start of a block.
pub open spec fn gated_phase(p: Phase, gate_high: bool) -> Phase {
    if gate_high {
        if p == Phase::Release {
            Phase::Delay
        } else {
            p
        }
    } else {
        Phase::Release
    }
}

/// Phase after one sample, given whether the current phase reached its end
/// (its countdown ran out, or its level reached its target).
pub open spec fn stepped_phase(p: Phase, reached: bool) -> Phase {
    if !reached {
        p
    } else {
        match p {
            Phase::Delay => Phase::Attack,
            Phase::Attack => Phase::Hold,
            Phase::Hold => Phase::Decay,
            Phase::Decay => Phase::Sustain,
            other => other,
        }
    }
}

impl Phase {
    /// Reads the trigger input: a high trigger restarts a released envelope from its
    /// delay, a low trigger releases it.  Tells whether the envelope restarted,
    /// which resets its level and delay countdown.
    pub fn gate(self, gate_high: bool) -> (r: (Phase, bool))
        ensures
            r.0 == gated_phase(self, gate_high),
            r.1 == (gate_high && self == Phase::Release),
    {
        if gate_high {
            if self == Phase::Release {
                (Phase::Delay, true)
            } else {
                (self, false)
            }
        } else {
            (Phase::Release, false)
        }
    }

    /// Moves to the next phase once the current one has reached its end;
    /// sustain and release last until the trigger input changes.
    pub fn step(self, reached: bool) -> (r: Phase)
        ensures
            r == stepped_phase(self, reached),
    {
        if !reached {
            return self;
        }
        match self {
            Phase::Delay => Phase::Attack,
            Phase::Attack => Phase::Hold,
            Phase::Hold => Phase::Decay,
            Phase::Decay => Phase::Sustain,
            other => other,
        }
    }
}

/// Order of the phases within one envelope.
pub open spec fn phase_rank(p: Phase) -> nat {
    match p {
        Phase::Delay => 0,
        Phase::Attack => 1,
        Phase::Hold => 2,
        Phase::Decay => 3,
        Phase::Sustain => 4,
        Phase::Release => 5,
    }
}

/// While the trigger input stays high after a rising edge, every step keeps the
/// envelope out of release and never moves it back to an earlier phase;
/// while it stays low, the envelope stays in release.
pub proof fn lemma_phase_order(p: Phase, reached: bool)
    ensures
        p != Phase::Release ==> gated_phase(p, true) == p && stepped_phase(p, reached) != Phase::Release
            && phase_rank(stepped_phase(p, reached)) >= phase_rank(p),
        stepped_phase(gated_phase(p, false), reached) == Phase::Release,
{
}

/// Builds the generator registered as `param`.
pub struct ParamFactory;

/// Builds the generator registered as `add`.
pub struct AddFactory;

/// Builds the generator registered as `mul`.
pub struct MulFactory;

/// Builds the generator registered as `negate`.
pub struct NegateFactory;

/// Builds the generator registered as `reciprocate`.
pub struct ReciprocateFactory;

/// Builds the generator registered as `rel`.
pub struct RelFactory;

/// Builds the generator registered as `ifelse`.
pub struct IfElseFactory;

/// Builds the generator registered as `controlrate`.
pub struct ControlRateFactory;

/// Builds the generator registered as `samplerate`.
pub struct SampleRateFactory;

/// Builds the generator registered as `lutdata`.
pub struct LutDataFactory;

/// Builds the generator registered as `lutgen`.
pub struct LutGenFactory;

/// Builds the generator registered as `sine`.
pub struct SineFactory;

/// Builds the generator registered as `saw`.
pub struct SawFactory;

/// Builds the generator registered as `triangle`.
pub struct TriangleFactory;

/// Builds the generator registered as `square`.
pub struct SquareFactory;

/// Builds the generator registered as `noise`.
pub struct NoiseFactory;

/// Builds the generator registered as `dahdsr`.
pub struct DAHDSRFactory;

/// The kinds of value a generator argument can hold.
#[derive(Debug, Clone, Copy, PartialEq, Eq, Structural)]
pub enum ParamKind {
    Integer,
    Float,
    String,
    Generator,
}

/// How the kind is written in error descriptions.
pub open spec fn kind_text(k: ParamKind) -> Seq<char> {
    match k {
        ParamKind::Integer => "Integer"@,
        ParamKind::Float => "Float"@,
        ParamKind::String => "String"@,
        ParamKind::Generator => "Generator"@,
    }
}

impl ParamKind {
    /// The kind's name, as written in error descriptions.
    pub fn text(&self) -> (r: &'static str)
        ensures
            r@ == kind_text(*self),
    {
        match self {
            ParamKind::Integer => "Integer",
            ParamKind::Float => "Float",
            ParamKind::String => "String",
            ParamKind::Generator => "Generator",
        }
    }
}

/// Why a generator could not be built from its arguments.
#[derive(Debug, Clone, PartialEq, Eq)]
pub enum GenFactoryError {
    /// No argument under this name nor at this position.
    MissingRequiredParam(String, usize),
    /// The argument cannot be turned from the first kind into the second.
    CannotConvert(ParamKind, ParamKind),
    /// The argument has a kind the generator cannot use there.
    BadType(ParamKind),
}

/// Default description of a factory error.
pub open spec fn factory_error_text(e: GenFactoryError) -> Seq<char> {
    match e {
        GenFactoryError::MissingRequiredParam(name, pos) => "Needed a parameter named "@ + name@
            + " or at pos "@ + decimal(pos as nat),
        GenFactoryError::CannotConvert(from, to) => "Cannot convert "@ + kind_text(from) + " to "@
            + kind_text(to),
        GenFactoryError::BadType(k) => "Bad parameter type "@ + kind_text(k),
    }
}

/// A factory error with its description.
#[derive(Debug, Clone)]
pub struct GenFactoryErrorType {
    pub kind: GenFactoryError,
    pub desc: String,
}

impl GenFactoryErrorType {
    /// Wraps `kind` with its default description.
    pub fn new(kind: GenFactoryError) -> (r: GenFactoryErrorType)
        ensures
            r.kind == kind,
            r.desc@ == factory_error_text(kind),
    {
        let mut desc = String::new();
        match &kind {
            GenFactoryError::MissingRequiredParam(name, pos) => {
                desc.append("Needed a parameter named ");
                desc.append(name.as_str());
                desc.append(" or at pos ");
                push_decimal(&mut desc, *pos as u64);
            },
            GenFactoryError::CannotConvert(from, to) => {
                desc.append("Cannot convert ");
                desc.append(from.text());
                desc.append(" to ");
                desc.append(to.text());
            },
            GenFactoryError::BadType(k) => {
                desc.append("Bad parameter type ");
                desc.append(k.text());
            },
        }
        assert(desc@ =~= factory_error_text(kind));
        GenFactoryErrorType { kind, desc }
    }

    /// Wraps `kind` with a description of the caller's choosing.
    pub fn with_description(kind: GenFactoryError, desc: String) -> (r: GenFactoryErrorType)
        ensures
            r.kind == kind,
            r.desc@ == desc@,
    {
        GenFactoryErrorType { kind, desc }
    }

    /// The description.
    pub fn description(&self) -> (r: &str)
        ensures
            r@ == self.desc@,
    {
        self.desc.as_str()
    }
}

/// An argument of a generator, as written in the source.
#[derive(Debug)]
pub enum ParamValue {
    Integer(i64),
    /// The text of a floating-point literal, already checked to be valid.
    Float(String),
    String(String),
    Generator(GenTree),
}

/// A generator to build: which one, and its arguments.
#[derive(Debug)]
pub struct GenTree {
    pub kind: FactoryKind,
    pub params: FactoryParameters,
}

/// The arguments of a generator: positional ones by index, named ones by
/// name (`names[i]` names `named[i]`).  A taken argument leaves an empty
/// slot, so later positions keep their index.
#[derive(Debug)]
pub struct FactoryParameters {
    pub positional: Vec<Option<ParamValue>>,
    pub names: Vec<String>,
    pub named: Vec<ParamValue>,
}

/// The kind of an argument.
pub open spec fn value_kind(v: ParamValue) -> ParamKind {
    match v {
        ParamValue::Integer(_) => ParamKind::Integer,
        ParamValue::Float(_) => ParamKind::Float,
        ParamValue::String(_) => ParamKind::String,
        ParamValue::Generator(_) => ParamKind::Generator,
    }
}

impl ParamValue {
    /// The kind of this argument.
    pub fn kind(&self) -> (r: ParamKind)
        ensures
            r == value_kind(*self),
    {
        match self {
            ParamValue::Integer(_) => ParamKind::Integer,
            ParamValue::Float(_) => ParamKind::Float,
            ParamValue::String(_) => ParamKind::String,
            ParamValue::Generator(_) => ParamKind::Generator,
        }
    }
}

/// Index of the first entry of `s` equal to `name`.
pub open spec fn first_index(s: Seq<Seq<char>>, name: Seq<char>) -> Option<int>
    decreases s.len(),
{
    if s.len() == 0 {
        None
    } else {
        match first_index(s.drop_last(), name) {
            Some(i) => Some(i),
            None => if s.last() == name {
                Some(s.len() - 1)
            } else {
                None
            },
        }
    }
}

/// Index of the first name equal to `name`.
pub open spec fn name_index(names: Seq<String>, name: Seq<char>) -> Option<int> {
    first_index(names.map_values(|s: String| s@), name)
}

proof fn lemma_first_index_none(s: Seq<Seq<char>>, name: Seq<char>)
    requires
        forall|j: int| 0 <= j < s.len() ==> s[j] != name,
    ensures
        first_index(s, name) is None,
    decreases s.len(),
{
    if s.len() > 0 {
        lemma_first_index_none(s.drop_last(), name);
    }
}

proof fn lemma_first_index_at(s: Seq<Seq<char>>, name: Seq<char>, i: int)
    requires
        0 <= i < s.len(),
        s[i] == name,
        forall|j: int| 0 <= j < i ==> s[j] != name,
    ensures
        first_index(s, name) == Some(i),
    decreases s.len(),
{
    if i == s.len() - 1 {
        lemma_first_index_none(s.drop_last(), name);
    } else {
        lemma_first_index_at(s.drop_last(), name, i);
    }
}

proof fn lemma_first_index_complete(s: Seq<Seq<char>>, name: Seq<char>, j: int)
    requires
        0 <= j < s.len(),
        s[j] == name,
    ensures
        first_index(s, name) is Some,
    decreases s.len(),
{
    if j < s.len() - 1 {
        lemma_first_index_complete(s.drop_last(), name, j);
    }
}

proof fn lemma_first_index_valid(s: Seq<Seq<char>>, name: Seq<char>)
    ensures
        first_index(s, name) matches Some(k) ==> 0 <= k < s.len() && s[k] == name,
    decreases s.len(),
{
    if s.len() > 0 {
        lemma_first_index_valid(s.drop_last(), name);
    }
}

proof fn lemma_name_index_at(n: Seq<String>, name: Seq<char>, i: int)
    requires
        0 <= i < n.len(),
        n[i]@ == name,
        forall|j: int| 0 <= j < i ==> n[j]@ != name,
    ensures
        name_index(n, name) == Some(i),
{
    let v = n.map_values(|s: String| s@);
    assert forall|j: int| 0 <= j < i implies v[j] != name by {}
    lemma_first_index_at(v, name, i);
}

proof fn lemma_name_index_push(n: Seq<String>, x: String, nm: Seq<char>)
    requires
        x@ != nm,
    ensures
        name_index(n.push(x), nm) == name_index(n, nm),
{
    let v = n.map_values(|s: String| s@);
    let w = n.push(x).map_values(|s: String| s@);
    assert(w.drop_last() =~= v);
}

proof fn lemma_name_index_valid(n: Seq<String>, nm: Seq<char>)
    ensures
        name_index(n, nm) matches Some(k) ==> 0 <= k < n.len() && n[k]@ == nm,
{
    lemma_first_index_valid(n.map_values(|s: String| s@), nm);
}

impl FactoryParameters {
    pub open spec fn wf(&self) -> bool {
        self.names@.len() == self.named@.len()
    }

    /// What a lookup by `name`, then by `position`, finds.
    pub open spec fn lookup(&self, name: Seq<char>, position: int) -> Option<ParamValue> {
        match name_index(self.names@, name) {
            Some(i) => Some(self.named@[i]),
            None => if 0 <= position < self.positional@.len() {
                self.positional@[position]
            } else {
                None
            },
        }
    }

    /// No arguments.
    pub fn new() -> (r: FactoryParameters)
        ensures
            r.wf(),
            r.positional@.len() == 0,
            r.names@.len() == 0,
    {
        FactoryParameters { positional: Vec::new(), names: Vec::new(), named: Vec::new() }
    }

    fn find_named(&self, name: &str) -> (r: Option<usize>)
        ensures
            match r {
                Some(i) => name_index(self.names@, name@) == Some(i as int) && i < self.names@.len(),
                None => name_index(self.names@, name@) is None,
            },
    {
        let mut i: usize = 0;
        while i < self.names.len()
            invariant
                i <= self.names@.len(),
                forall|j: int| 0 <= j < i ==> self.names@[j]@ != name@,
            decreases self.names@.len() - i,
        {
            if same_text(self.names[i].as_str(), name) {
                proof {
                    lemma_name_index_at(self.names@, name@, i as int);
                }
                return Some(i);
            }
            i += 1;
        }
        proof {
            let v = self.names@.map_values(|s: String| s@);
            assert forall|j: int| 0 <= j < v.len() implies v[j] != name@ by {}
            lemma_first_index_none(v, name@);
        }
        None
    }

    /// Adds a named argument, replacing one of the same name.
    pub fn insert_named(&mut self, name: String, value: ParamValue)
        requires
            old(self).wf(),
        ensures
            final(self).wf(),
            final(self).positional@ == old(self).positional@,
            final(self).lookup(name@, -1) == Some(value),
            forall|nm: Seq<char>| nm != name@ ==> #[trigger] final(self).lookup(nm, -1) == old(self).lookup(nm, -1),
    {
        match self.find_named(name.as_str()) {
            Some(i) => {
                self.named.set(i, value);
                proof {
                    assert(self.names@ == old(self).names@);
                    lemma_name_index_valid(self.names@, name@);
                    assert forall|nm: Seq<char>| nm != name@ implies #[trigger] self.lookup(nm, -1) == old(self).lookup(nm, -1) by {
                        lemma_name_index_valid(self.names@, nm);
                        if let Some(k) = name_index(self.names@, nm) {
                            assert(k != i);
                            assert(self.named@[k] == old(self).named@[k]);
                        }
                    }
                }
            },
            None => {
                let ghost nm0 = name@;
                let ghost old_names = self.names@;
                self.names.push(name);
                self.named.push(value);
                proof {
                    let i = self.names@.len() - 1;
                    assert forall|j: int| 0 <= j < i implies self.names@[j]@ != nm0 by {
                        assert(self.names@[j] == old(self).names@[j]);
                        if old_names[j]@ == nm0 {
                            lemma_first_index_complete(old_names.map_values(|s: String| s@), nm0, j);
                        }
                    }
                    lemma_name_index_at(self.names@, nm0, i);
                    assert forall|nm: Seq<char>| nm != nm0 implies #[trigger] self.lookup(nm, -1) == old(self).lookup(nm, -1) by {
                        lemma_name_index_push(old_names, self.names@[i], nm);
                        assert(old_names.push(self.names@[i]) =~= self.names@);
                        lemma_name_index_valid(old_names, nm);
                    }
                }
            },
        }
    }

    /// Adds the next positional argument.
    pub fn push_positional(&mut self, value: ParamValue)
        ensures
            final(self).positional@ == old(self).positional@.push(Some(value)),
            final(self).names@ == old(self).names@,
            final(self).named@ == old(self).named@,
    {
        self.positional.push(Some(value));
    }

    /// The argument called `name`, or else the one at `position`.
    pub fn get_param(&self, name: &str, position: usize) -> (r: Option<&ParamValue>)
        requires
            self.wf(),
        ensures
            match self.lookup(name@, position as int) {
                Some(v) => r == Some(&v),
                None => r is None,
            },
    {
        match self.find_named(name) {
            Some(i) => Some(&self.named[i]),
            None => {
                if position < self.positional.len() {
                    match &self.positional[position] {
                        Some(v) => Some(v),
                        None => None,
                    }
                } else {
                    None
                }
            },
        }
    }

    /// Like [`FactoryParameters::get_param`], failing when nothing is found.
    pub fn get_req_param(&self, name: &str, position: usize) -> (r: Result<&ParamValue, GenFactoryError>)
        requires
            self.wf(),
        ensures
            match self.lookup(name@, position as int) {
                Some(v) => r == Ok::<&ParamValue, GenFactoryError>(&v),
                None => match r {
                    Err(GenFactoryError::MissingRequiredParam(n, p)) => n@ == name@ && p == position,
                    _ => false,
                },
            },
    {
        match self.get_param(name, position) {
            Some(v) => Ok(v),
            None => Err(GenFactoryError::MissingRequiredParam(name.to_string(), position)),
        }
    }

    /// Takes out the argument called `name`, or else the one at `position`.
    pub fn remove_param(&mut self, name: &str, position: usize) -> (r: Result<ParamValue, GenFactoryError>)
        requires
            old(self).wf(),
        ensures
            final(self).wf(),
            match old(self).lookup(name@, position as int) {
                Some(v) => r == Ok::<ParamValue, GenFactoryError>(v),
                None => match r {
                    Err(GenFactoryError::MissingRequiredParam(n, p)) => n@ == name@ && p == position,
                    _ => false,
                },
            },
            match name_index(old(self).names@, name@) {
                Some(i) => final(self).names@ == old(self).names@.remove(i) && final(self).named@
                    == old(self).named@.remove(i) && final(self).positional@ == old(self).positional@,
                None => final(self).names@ == old(self).names@ && final(self).named@ == old(
                    self,
                ).named@ && if position < old(self).positional@.len() {
                    final(self).positional@ == old(self).positional@.update(position as int, None)
                } else {
                    final(self).positional@ == old(self).positional@
                },
            },
    {
        match self.find_named(name) {
            Some(i) => {
                self.names.remove(i);
                Ok(self.named.remove(i))
            },
            None => {
                if position < self.positional.len() {
                    let slot = self.positional.remove(position);
                    self.positional.insert(position, None);
                    assert(self.positional@ =~= old(self).positional@.update(position as int, None));
                    match slot {
                        Some(v) => Ok(v),
                        None => Err(GenFactoryError::MissingRequiredParam(name.to_string(), position)),
                    }
                } else {
                    Err(GenFactoryError::MissingRequiredParam(name.to_string(), position))
                }
            },
        }
    }

    /// Takes out the positional arguments from the first up to the first
    /// missing one.
    pub fn get_pos_params(&mut self) -> (r: Vec<ParamValue>)
        ensures
            r@.len() <= old(self).positional@.len(),
            forall|i: int| 0 <= i < r@.len() ==> old(self).positional@[i] == Some(r@[i]),
            r@.len() < old(self).positional@.len() ==> old(self).positional@[r@.len() as int] is None,
            final(self).positional@.len() == old(self).positional@.len(),
            forall|i: int| 0 <= i < r@.len() ==> final(self).positional@[i] is None,
            forall|i: int|
                r@.len() <= i < old(self).positional@.len() ==> final(self).positional@[i] == old(
                    self,
                ).positional@[i],
            final(self).names@ == old(self).names@,
            final(self).named@ == old(self).named@,
    {
        let mut r: Vec<ParamValue> = Vec::new();
        let mut i: usize = 0;
        while i < self.positional.len()
            invariant
                i <= self.positional@.len(),
                self.positional@.len() == old(self).positional@.len(),
                r@.len() == i,
                forall|j: int| 0 <= j < i ==> old(self).positional@[j] == Some(r@[j]),
                forall|j: int| i <= j < self.positional@.len() ==> self.positional@[j] == old(self).positional@[j],
                forall|j: int| 0 <= j < i ==> self.positional@[j] is None,
                self.names@ == old(self).names@,
                self.named@ == old(self).named@,
            decreases self.positional@.len() - i,
        {
            let slot = self.positional.remove(i);
            self.positional.insert(i, None);
            match slot {
                Some(v) => {
                    r.push(v);
                    i += 1;
                },
                None => {
                    return r;
                },
            }
        }
        r
    }
}

} // verus!
