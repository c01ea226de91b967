use vstd::prelude::*;

verus! {

/// The nonlinearity applied after one layer of a network.
#[derive(Clone, Copy, PartialEq, Eq, Debug, Structural)]
pub enum Activation {
    Sigmoid,
    ELU,
    RELU,
}

/// Why a network configuration is refused.
#[derive(Clone, Copy, PartialEq, Eq, Debug, Structural)]
pub enum ConfigError {
    /// The number of activations is not one less than the number of layers.
    ActivationCount,
    /// The first layer is not 42 wide (one input per cell).
    InputWidth,
    /// The last layer is not 7 wide (one output per column).
    OutputWidth,
}

/// The activation that a name denotes: `sigmoid`, `elu` or `relu`.
pub open spec fn activation_named(s: Seq<char>) -> Option<Activation> {
    if s == "sigmoid"@ {
        Some(Activation::Sigmoid)
    } else if s == "elu"@ {
        Some(Activation::ELU)
    } else if s == "relu"@ {
        Some(Activation::RELU)
    } else {
        None
    }
}

/// Whether two strings hold the same characters.
pub fn same_text(a: &str, b: &str) -> (r: bool)
    ensures
        r == (a@ == b@),
{
    let n = a.unicode_len();
    if n != b.unicode_len() {
        return false;
    }
    let mut i: usize = 0;
    while i < n
        invariant
            n == a@.len(),
            n == b@.len(),
            i <= n,
            forall|j: int| 0 <= j < i ==> a@[j] == b@[j],
        decreases n - i,
    {
        if a.get_char(i) != b.get_char(i) {
            return false;
        }
        i = i + 1;
    }
    assert(a@ =~= b@);
    true
}

impl Activation {
    /// The activation named `s`, if `s` names one.
    pub fn parse(s: &str) -> (r: Option<Activation>)
        ensures
            r == activation_named(s@),
    {
        if same_text(s, "sigmoid") {
            Some(Activation::Sigmoid)
        } else if same_text(s, "elu") {
            Some(Activation::ELU)
        } else if same_text(s, "relu") {
            Some(Activation::RELU)
        } else {
            None
        }
    }

    /// The activation named `s`, which must be `sigmoid`, `elu` or `relu`.
    pub fn from_string(s: &str) -> (r: Activation)
        requires
            activation_named(s@) is Some,
        ensures
            activation_named(s@) == Some(r),
    {
        match Activation::parse(s) {
            Some(a) => a,
            None => Activation::Sigmoid,
        }
    }
}

/// Whether `structure` and a list of `activations` activations describe a
/// network from the 42 cells of a board to its 7 columns.
pub open spec fn structure_ok(structure: Seq<usize>, activations: int) -> bool {
    &&& structure.len() == activations + 1
    &&& structure[0] == 42
    &&& structure.last() == 7
}

/// The shape `(outputs, inputs + 1)` of the weights of layer `i`; the extra
/// column takes the bias input.
pub open spec fn layer_shape(structure: Seq<usize>, i: int) -> (int, int) {
    (structure[i + 1] as int, structure[i] + 1)
}

/// Checks a network configuration: the number of activations first, then
/// the widths of the first and of the last layer.
pub fn check_structure(structure: &Vec<usize>, activations: usize) -> (r: Result<(), ConfigError>)
    ensures
        r is Ok <==> structure_ok(structure@, activations as int),
        r == Err::<(), ConfigError>(ConfigError::ActivationCount) <==> structure@.len() != activations + 1,
        r == Err::<(), ConfigError>(ConfigError::InputWidth) <==> structure@.len() == activations + 1
            && structure@[0] != 42,
        r == Err::<(), ConfigError>(ConfigError::OutputWidth) <==> structure@.len() == activations + 1
            && structure@[0] == 42 && structure@.last() != 7,
{
    if structure.len() == 0 || structure.len() - 1 != activations {
        Err(ConfigError::ActivationCount)
    } else if structure[0] != 42 {
        Err(ConfigError::InputWidth)
    } else if structure[structure.len() - 1] != 7 {
        Err(ConfigError::OutputWidth)
    } else {
        Ok(())
    }
}

/// The shapes of the weight matrices of a network with layer widths
/// `structure`: layer `i` is `structure[i + 1]` by `structure[i] + 1`.
pub fn layer_shapes(structure: &Vec<usize>) -> (r: Vec<(usize, usize)>)
    requires
        structure@.len() >= 1,
        forall|i: int| 0 <= i < structure@.len() ==> #[trigger] structure@[i] < usize::MAX,
    ensures
        r@.len() == structure@.len() - 1,
        forall|i: int| 0 <= i < r@.len() ==> (#[trigger] r@[i].0 as int, r@[i].1 as int) == layer_shape(structure@, i),
{
    let mut r: Vec<(usize, usize)> = Vec::new();
    let mut i: usize = 0;
    while i < structure.len() - 1
        invariant
            structure@.len() >= 1,
            forall|i: int| 0 <= i < structure@.len() ==> #[trigger] structure@[i] < usize::MAX,
            i < structure@.len(),
            r@.len() == i,
            forall|j: int| 0 <= j < i ==> (#[trigger] r@[j].0 as int, r@[j].1 as int) == layer_shape(structure@, j),
        decreases structure@.len() - i,
    {
        r.push((structure[i + 1], structure[i] + 1));
        i = i + 1;
    }
    r
}

/// The shapes of an accepted network chain from the board to the moves:
/// the first layer takes the 42 cells and the bias, each later layer takes
/// the outputs of the one before and the bias, and the last one gives 7
/// outputs, one per column, whatever the input values.
pub proof fn lemma_shapes_chain(structure: Seq<usize>, activations: int)
    requires
        activations >= 0,
        structure_ok(structure, activations),
    ensures
        structure.len() >= 2,
        layer_shape(structure, 0).1 == 43,
        forall|i: int|
            0 <= i < structure.len() - 2 ==> #[trigger] layer_shape(structure, i + 1).1 == layer_shape(structure, i).0
                + 1,
        layer_shape(structure, structure.len() - 2).0 == 7,
{
    if structure.len() == 1 {
        assert(structure.last() == structure[0]);
    }
}

} // verus!
