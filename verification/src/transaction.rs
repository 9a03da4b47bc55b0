//! Decoded transactions, as far as the index reads them.

use crate::outpoint::TxOutpoint;
use vstd::prelude::*;

verus! {

/// The number of outputs a transaction can have at most: the position of an
/// output has to fit the four index bytes of an outpoint.
pub const MAX_OUTPUTS: u64 = 0x1_0000_0000;

/// A value together with its 32-byte hash.
#[derive(Clone, Debug)]
pub struct Hashed<T> {
    pub hash: [u8; 32],
    pub value: T,
}

/// An input: the outpoint that it spends.
#[derive(Clone, Copy, Debug)]
pub struct TxInput {
    pub outpoint: TxOutpoint,
}

/// The amount that an output carries, in the smallest unit.
#[derive(Clone, Copy, Debug)]
pub struct TxOutput {
    pub value: u64,
}

/// What decoding an output script gave: the destination address, where the
/// script follows a known pattern, and the name of the pattern.
#[derive(Clone, Debug)]
pub struct EvaluatedScript {
    pub address: Option<String>,
    pub pattern: String,
}

/// An output with its decoded script.
#[derive(Clone, Debug)]
pub struct EvaluatedTxOut {
    pub script: EvaluatedScript,
    pub out: TxOutput,
}

/// The mathematical content of an `EvaluatedTxOut`.
pub struct OutputView {
    pub value: u64,
    pub address: Option<Seq<char>>,
    pub pattern: Seq<char>,
}

impl OutputView {
    /// Whether the output pays to a known address.
    pub open spec fn resolved(self) -> bool {
        self.address is Some
    }
}

impl View for EvaluatedTxOut {
    type V = OutputView;

    open spec fn view(&self) -> OutputView {
        OutputView {
            value: self.out.value,
            address: match self.script.address {
                Some(address) => Some(address@),
                None => None,
            },
            pattern: self.script.pattern@,
        }
    }
}

/// The mathematical content of a `Tx`.
pub struct TxView {
    pub inputs: Seq<TxOutpoint>,
    pub outputs: Seq<OutputView>,
}

/// The view of a list of inputs: the outpoints they spend, in order.
pub open spec fn inputs_view(inputs: Seq<TxInput>) -> Seq<TxOutpoint> {
    inputs.map_values(|input: TxInput| input.outpoint)
}

/// The view of a list of outputs.
pub open spec fn outputs_view(outputs: Seq<EvaluatedTxOut>) -> Seq<OutputView> {
    outputs.map_values(|output: EvaluatedTxOut| output@)
}

/// A decoded transaction: its inputs and its outputs, each in the order of the
/// transaction. It never has more than `MAX_OUTPUTS` outputs.
#[derive(Debug)]
pub struct Tx {
    inputs: Vec<TxInput>,
    outputs: Vec<EvaluatedTxOut>,
}

impl View for Tx {
    type V = TxView;

    closed spec fn view(&self) -> TxView {
        TxView { inputs: inputs_view(self.inputs@), outputs: outputs_view(self.outputs@) }
    }
}

impl Tx {
    #[verifier::type_invariant]
    spec fn well_formed(self) -> bool {
        self.outputs@.len() <= MAX_OUTPUTS
    }

    /// Builds a transaction, unless it has more outputs than outpoints can
    /// address.
    pub fn new(inputs: Vec<TxInput>, outputs: Vec<EvaluatedTxOut>) -> (tx: Option<Tx>)
        ensures
            outputs@.len() <= MAX_OUTPUTS <==> tx is Some,
            tx matches Some(t) ==> t@.inputs == inputs_view(inputs@) && t@.outputs == outputs_view(
                outputs@,
            ),
    {
        if outputs.len() as u64 <= MAX_OUTPUTS {
            Some(Tx { inputs, outputs })
        } else {
            None
        }
    }

    /// The inputs, in the order of the transaction.
    pub fn inputs(&self) -> (inputs: &Vec<TxInput>)
        ensures
            inputs_view(inputs@) == self@.inputs,
    {
        &self.inputs
    }

    /// The outputs, in the order of the transaction.
    pub fn outputs(&self) -> (outputs: &Vec<EvaluatedTxOut>)
        ensures
            outputs_view(outputs@) == self@.outputs,
            outputs@.len() <= MAX_OUTPUTS,
    {
        proof {
            use_type_invariant(self);
        }
        &self.outputs
    }
}

} // verus!
