//! The container on the wire: five magic bytes, the map of the global
//! section, one map for each input of the unsigned transaction, and one for
//! each of its outputs.
//!
//! Decoding takes the entries of a map in any order. Encoding writes the
//! fields of a section in the order of their type bytes, each keyed collection
//! in ascending order of its keys' bytes, and the fields of unknown type last,
//! in ascending order of their keys' bytes.

use vstd::prelude::*;
use crate::bytes::copy_bytes;
use crate::error::DecodeError;
use crate::global::{global_entries, global_from, lemma_global_entries_fit, lemma_global_round_trip};
use crate::input::{input_entries, input_from, lemma_input_entries_fit, lemma_input_round_trip};
use crate::model::{
    input_views, output_views, Global, GlobalView, Input, InputView, Output, OutputView, Psbt,
    PsbtView,
};
use crate::output::{
    lemma_output_entries_fit, lemma_output_round_trip, output_entries, output_from,
};
use crate::tx::{count_unsigned, unsigned_counts};
use crate::wire::{lemma_map_round_trip, map_bytes, parse_map, read_map, write_map};

verus! {

/// The bytes that every container starts with.
pub open spec fn magic() -> Seq<u8> {
    seq![0x70u8, 0x73u8, 0x62u8, 0x74u8, 0xffu8]
}

/// The maps of the input sections, one after the other.
pub open spec fn inputs_bytes(inputs: Seq<InputView>) -> Seq<u8>
    decreases inputs.len(),
{
    if inputs.len() == 0 {
        Seq::empty()
    } else {
        map_bytes(input_entries(inputs[0])) + inputs_bytes(inputs.drop_first())
    }
}

/// The maps of the output sections, one after the other.
pub open spec fn outputs_bytes(outputs: Seq<OutputView>) -> Seq<u8>
    decreases outputs.len(),
{
    if outputs.len() == 0 {
        Seq::empty()
    } else {
        map_bytes(output_entries(outputs[0])) + outputs_bytes(outputs.drop_first())
    }
}

/// The container on the wire.
pub open spec fn encoded(c: PsbtView) -> Seq<u8> {
    magic() + map_bytes(global_entries(c.global)) + inputs_bytes(c.inputs) + outputs_bytes(
        c.outputs,
    )
}

/// The sections `front`, then those that were read as `tail`.
pub open spec fn inputs_then(
    front: Seq<InputView>,
    tail: Result<(Seq<InputView>, Seq<u8>), DecodeError>,
) -> Result<(Seq<InputView>, Seq<u8>), DecodeError> {
    match tail {
        Err(e) => Err(e),
        Ok((more, rest)) => Ok((front + more, rest)),
    }
}

/// The sections `front`, then those that were read as `tail`.
pub open spec fn outputs_then(
    front: Seq<OutputView>,
    tail: Result<(Seq<OutputView>, Seq<u8>), DecodeError>,
) -> Result<(Seq<OutputView>, Seq<u8>), DecodeError> {
    match tail {
        Err(e) => Err(e),
        Ok((more, rest)) => Ok((front + more, rest)),
    }
}

/// Reads the maps of `n` input sections from the front of `s`.
pub open spec fn parse_inputs(s: Seq<u8>, n: nat) -> Result<(Seq<InputView>, Seq<u8>), DecodeError>
    decreases n,
{
    if n == 0 {
        Ok((Seq::empty(), s))
    } else {
        match parse_map(s) {
            Err(e) => Err(e),
            Ok((entries, rest)) => match input_from(entries) {
                Err(e) => Err(e),
                Ok(input) => inputs_then(seq![input], parse_inputs(rest, (n - 1) as nat)),
            },
        }
    }
}

/// Reads the maps of `n` output sections from the front of `s`.
pub open spec fn parse_outputs(s: Seq<u8>, n: nat) -> Result<
    (Seq<OutputView>, Seq<u8>),
    DecodeError,
>
    decreases n,
{
    if n == 0 {
        Ok((Seq::empty(), s))
    } else {
        match parse_map(s) {
            Err(e) => Err(e),
            Ok((entries, rest)) => match output_from(entries) {
                Err(e) => Err(e),
                Ok(output) => outputs_then(seq![output], parse_outputs(rest, (n - 1) as nat)),
            },
        }
    }
}

/// The sections behind the global one: as many input sections as the
/// unsigned transaction has inputs, as many output sections as it has
/// outputs, and nothing more.
pub open spec fn sections_decoded(global: GlobalView, s: Seq<u8>) -> Result<PsbtView, DecodeError> {
    match unsigned_counts(global.unsigned_tx) {
        None => Err(DecodeError::InvalidTransaction),
        Some((n_in, n_out)) => match parse_inputs(s, n_in) {
            Err(e) => Err(e),
            Ok((inputs, after_inputs)) => match parse_outputs(after_inputs, n_out) {
                Err(e) => Err(e),
                Ok((outputs, rest)) => if rest.len() != 0 {
                    Err(DecodeError::TrailingBytes)
                } else {
                    Ok(PsbtView { global, inputs, outputs })
                },
            },
        },
    }
}

/// The container that the bytes are, or why they are none.
pub open spec fn decoded(s: Seq<u8>) -> Result<PsbtView, DecodeError> {
    if s.len() < 5 || s.take(5) != magic() {
        Err(DecodeError::BadMagic)
    } else {
        match parse_map(s.skip(5)) {
            Err(e) => Err(e),
            Ok((entries, rest)) => match global_from(entries) {
                Err(e) => Err(e),
                Ok(global) => sections_decoded(global, rest),
            },
        }
    }
}

proof fn lemma_inputs_round_trip(inputs: Seq<InputView>, rest: Seq<u8>)
    requires
        forall|i: int| 0 <= i < inputs.len() ==> (#[trigger] inputs[i]).wf(),
    ensures
        parse_inputs(inputs_bytes(inputs) + rest, inputs.len()) == Ok::<
            (Seq<InputView>, Seq<u8>),
            DecodeError,
        >((inputs, rest)),
    decreases inputs.len(),
{
    if inputs.len() == 0 {
        assert(inputs_bytes(inputs) + rest =~= rest);
        assert(inputs =~= Seq::empty());
    } else {
        let tail = inputs.drop_first();
        let after = inputs_bytes(tail) + rest;
        assert(inputs_bytes(inputs) + rest =~= map_bytes(input_entries(inputs[0])) + after);
        assert(inputs[0].wf());
        lemma_input_entries_fit(inputs[0]);
        lemma_map_round_trip(input_entries(inputs[0]), after);
        lemma_input_round_trip(inputs[0]);
        assert forall|i: int| 0 <= i < tail.len() implies (#[trigger] tail[i]).wf() by {
            assert(tail[i] == inputs[i + 1]);
        }
        lemma_inputs_round_trip(tail, rest);
        assert(seq![inputs[0]] + tail =~= inputs);
    }
}

proof fn lemma_outputs_round_trip(outputs: Seq<OutputView>, rest: Seq<u8>)
    requires
        forall|i: int| 0 <= i < outputs.len() ==> (#[trigger] outputs[i]).wf(),
    ensures
        parse_outputs(outputs_bytes(outputs) + rest, outputs.len()) == Ok::<
            (Seq<OutputView>, Seq<u8>),
            DecodeError,
        >((outputs, rest)),
    decreases outputs.len(),
{
    if outputs.len() == 0 {
        assert(outputs_bytes(outputs) + rest =~= rest);
        assert(outputs =~= Seq::empty());
    } else {
        let tail = outputs.drop_first();
        let after = outputs_bytes(tail) + rest;
        assert(outputs_bytes(outputs) + rest =~= map_bytes(output_entries(outputs[0])) + after);
        assert(outputs[0].wf());
        lemma_output_entries_fit(outputs[0]);
        lemma_map_round_trip(output_entries(outputs[0]), after);
        lemma_output_round_trip(outputs[0]);
        assert forall|i: int| 0 <= i < tail.len() implies (#[trigger] tail[i]).wf() by {
            assert(tail[i] == outputs[i + 1]);
        }
        lemma_outputs_round_trip(tail, rest);
        assert(seq![outputs[0]] + tail =~= outputs);
    }
}

/// Decoding what a well-formed container is encoded as gives the container
/// back, field for field, the fields of unknown type included.
pub proof fn lemma_round_trip(c: PsbtView)
    requires
        c.wf(),
    ensures
        decoded(encoded(c)) == Ok::<PsbtView, DecodeError>(c),
{
    let s = encoded(c);
    let sections = inputs_bytes(c.inputs) + outputs_bytes(c.outputs);
    assert(s.take(5) =~= magic());
    assert(s.skip(5) =~= map_bytes(global_entries(c.global)) + sections);
    lemma_global_entries_fit(c.global);
    lemma_map_round_trip(global_entries(c.global), sections);
    lemma_global_round_trip(c.global);
    lemma_inputs_round_trip(c.inputs, outputs_bytes(c.outputs));
    lemma_outputs_round_trip(c.outputs, Seq::empty());
    assert(outputs_bytes(c.outputs) + Seq::<u8>::empty() =~= outputs_bytes(c.outputs));
}

proof fn lemma_inputs_bytes_push(inputs: Seq<InputView>, input: InputView)
    ensures
        inputs_bytes(inputs.push(input)) == inputs_bytes(inputs) + map_bytes(input_entries(input)),
    decreases inputs.len(),
{
    if inputs.len() == 0 {
        assert(inputs.push(input).drop_first() =~= inputs);
        assert(inputs_bytes(inputs.push(input)) =~= inputs_bytes(inputs) + map_bytes(
            input_entries(input),
        ));
    } else {
        lemma_inputs_bytes_push(inputs.drop_first(), input);
        assert(inputs.push(input).drop_first() =~= inputs.drop_first().push(input));
        assert(inputs_bytes(inputs.push(input)) =~= inputs_bytes(inputs) + map_bytes(
            input_entries(input),
        ));
    }
}

proof fn lemma_outputs_bytes_push(outputs: Seq<OutputView>, output: OutputView)
    ensures
        outputs_bytes(outputs.push(output)) == outputs_bytes(outputs) + map_bytes(
            output_entries(output),
        ),
    decreases outputs.len(),
{
    if outputs.len() == 0 {
        assert(outputs.push(output).drop_first() =~= outputs);
        assert(outputs_bytes(outputs.push(output)) =~= outputs_bytes(outputs) + map_bytes(
            output_entries(output),
        ));
    } else {
        lemma_outputs_bytes_push(outputs.drop_first(), output);
        assert(outputs.push(output).drop_first() =~= outputs.drop_first().push(output));
        assert(outputs_bytes(outputs.push(output)) =~= outputs_bytes(outputs) + map_bytes(
            output_entries(output),
        ));
    }
}

/// Reads the maps of `n` input sections at `pos`.
fn read_inputs(bytes: &[u8], pos: usize, n: usize) -> (r: Result<(Vec<Input>, usize), DecodeError>)
    requires
        pos <= bytes.len(),
    ensures
        match r {
            Ok((inputs, next)) => pos <= next <= bytes.len() && parse_inputs(
                bytes@.skip(pos as int),
                n as nat,
            ) == Ok::<(Seq<InputView>, Seq<u8>), DecodeError>(
                (input_views(inputs@), bytes@.skip(next as int)),
            ) && inputs@.len() == n && forall|i: int|
                0 <= i < inputs@.len() ==> (#[trigger] inputs@[i])@.wf(),
            Err(e) => parse_inputs(bytes@.skip(pos as int), n as nat) == Err::<
                (Seq<InputView>, Seq<u8>),
                DecodeError,
            >(e),
        },
{
    let ghost whole = parse_inputs(bytes@.skip(pos as int), n as nat);
    let mut inputs: Vec<Input> = Vec::new();
    let mut cur: usize = pos;
    let mut k: usize = 0;
    proof {
        assert(input_views(inputs@) =~= Seq::empty());
        match whole {
            Ok((more, rest)) => {
                assert(Seq::<InputView>::empty() + more =~= more);
            },
            Err(_) => {},
        }
    }
    while k < n
        invariant
            k <= n,
            pos <= cur <= bytes.len(),
            inputs@.len() == k,
            forall|i: int| 0 <= i < inputs@.len() ==> (#[trigger] inputs@[i])@.wf(),
            whole == parse_inputs(bytes@.skip(pos as int), n as nat),
            whole == inputs_then(
                input_views(inputs@),
                parse_inputs(bytes@.skip(cur as int), (n - k) as nat),
            ),
        decreases n - k,
    {
        let (entries, next) = match read_map(bytes, cur) {
            Err(e) => {
                return Err(e);
            },
            Ok(found) => found,
        };
        let input = match Input::from_entries(&entries) {
            Err(e) => {
                return Err(e);
            },
            Ok(input) => input,
        };
        let ghost before = input_views(inputs@);
        let ghost tail = parse_inputs(bytes@.skip(next as int), (n - k - 1) as nat);
        inputs.push(input);
        proof {
            assert(input_views(inputs@) =~= before.push(input@));
            match tail {
                Ok((more, rest)) => {
                    assert(before + (seq![input@] + more) =~= before.push(input@) + more);
                },
                Err(_) => {},
            }
        }
        cur = next;
        k += 1;
    }
    proof {
        assert(input_views(inputs@) + Seq::<InputView>::empty() =~= input_views(inputs@));
    }
    Ok((inputs, cur))
}

/// Reads the maps of `n` output sections at `pos`.
fn read_outputs(bytes: &[u8], pos: usize, n: usize) -> (r: Result<(Vec<Output>, usize), DecodeError>)
    requires
        pos <= bytes.len(),
    ensures
        match r {
            Ok((outputs, next)) => pos <= next <= bytes.len() && parse_outputs(
                bytes@.skip(pos as int),
                n as nat,
            ) == Ok::<(Seq<OutputView>, Seq<u8>), DecodeError>(
                (output_views(outputs@), bytes@.skip(next as int)),
            ) && outputs@.len() == n && forall|i: int|
                0 <= i < outputs@.len() ==> (#[trigger] outputs@[i])@.wf(),
            Err(e) => parse_outputs(bytes@.skip(pos as int), n as nat) == Err::<
                (Seq<OutputView>, Seq<u8>),
                DecodeError,
            >(e),
        },
{
    let ghost whole = parse_outputs(bytes@.skip(pos as int), n as nat);
    let mut outputs: Vec<Output> = Vec::new();
    let mut cur: usize = pos;
    let mut k: usize = 0;
    proof {
        assert(output_views(outputs@) =~= Seq::empty());
        match whole {
            Ok((more, rest)) => {
                assert(Seq::<OutputView>::empty() + more =~= more);
            },
            Err(_) => {},
        }
    }
    while k < n
        invariant
            k <= n,
            pos <= cur <= bytes.len(),
            outputs@.len() == k,
            forall|i: int| 0 <= i < outputs@.len() ==> (#[trigger] outputs@[i])@.wf(),
            whole == parse_outputs(bytes@.skip(pos as int), n as nat),
            whole == outputs_then(
                output_views(outputs@),
                parse_outputs(bytes@.skip(cur as int), (n - k) as nat),
            ),
        decreases n - k,
    {
        let (entries, next) = match read_map(bytes, cur) {
            Err(e) => {
                return Err(e);
            },
            Ok(found) => found,
        };
        let output = match Output::from_entries(&entries) {
            Err(e) => {
                return Err(e);
            },
            Ok(output) => output,
        };
        let ghost before = output_views(outputs@);
        let ghost tail = parse_outputs(bytes@.skip(next as int), (n - k - 1) as nat);
        outputs.push(output);
        proof {
            assert(output_views(outputs@) =~= before.push(output@));
            match tail {
                Ok((more, rest)) => {
                    assert(before + (seq![output@] + more) =~= before.push(output@) + more);
                },
                Err(_) => {},
            }
        }
        cur = next;
        k += 1;
    }
    proof {
        assert(output_views(outputs@) + Seq::<OutputView>::empty() =~= output_views(outputs@));
    }
    Ok((outputs, cur))
}

/// Whether the bytes start with the magic bytes.
fn has_magic(bytes: &[u8]) -> (r: bool)
    ensures
        r == (bytes@.len() >= 5 && bytes@.take(5) == magic()),
{
    if bytes.len() < 5 {
        return false;
    }
    let r = bytes[0] == 0x70 && bytes[1] == 0x73 && bytes[2] == 0x62 && bytes[3] == 0x74 && bytes[4]
        == 0xff;
    proof {
        let head = bytes@.take(5);
        if r {
            assert(head =~= magic());
        } else {
            assert(head[0] == bytes@[0] && head[1] == bytes@[1] && head[2] == bytes@[2] && head[3]
                == bytes@[3] && head[4] == bytes@[4]);
            assert(magic()[0] == 0x70u8 && magic()[1] == 0x73u8 && magic()[2] == 0x62u8
                && magic()[3] == 0x74u8 && magic()[4] == 0xffu8);
        }
    }
    r
}

impl Psbt {
    /// Decodes a container. Succeeds exactly on the byte strings that
    /// `decoded` accepts, and says why it refuses another.
    pub fn decode(bytes: &[u8]) -> (r: Result<Psbt, DecodeError>)
        ensures
            match r {
                Ok(p) => decoded(bytes@) == Ok::<PsbtView, DecodeError>(p@) && p@.wf(),
                Err(e) => decoded(bytes@) == Err::<PsbtView, DecodeError>(e),
            },
    {
        if !has_magic(bytes) {
            return Err(DecodeError::BadMagic);
        }
        let (entries, after_global) = match read_map(bytes, 5) {
            Err(e) => {
                return Err(e);
            },
            Ok(found) => found,
        };
        let (global, n_in, n_out) = match Global::from_entries(&entries) {
            Err(e) => {
                return Err(e);
            },
            Ok(found) => found,
        };
        let (inputs, after_inputs) = match read_inputs(bytes, after_global, n_in) {
            Err(e) => {
                return Err(e);
            },
            Ok(found) => found,
        };
        let (outputs, end) = match read_outputs(bytes, after_inputs, n_out) {
            Err(e) => {
                return Err(e);
            },
            Ok(found) => found,
        };
        if end != bytes.len() {
            return Err(DecodeError::TrailingBytes);
        }
        Ok(Psbt { global, inputs, outputs })
    }

    /// Encodes the container. Decoding the bytes gives a well-formed
    /// container back.
    pub fn encode(&self) -> (r: Vec<u8>)
        ensures
            r@ == encoded(self@),
            self@.wf() ==> decoded(r@) == Ok::<PsbtView, DecodeError>(self@),
    {
        let mut out: Vec<u8> = Vec::new();
        out.push(0x70);
        out.push(0x73);
        out.push(0x62);
        out.push(0x74);
        out.push(0xff);
        proof {
            assert(out@ =~= magic());
        }
        write_map(&mut out, &self.global.entries());
        let ghost head = out@;
        let ghost ins = input_views(self.inputs@);
        let mut i: usize = 0;
        proof {
            assert(ins.take(0) =~= Seq::empty());
            assert(out@ =~= head + inputs_bytes(ins.take(0)));
        }
        while i < self.inputs.len()
            invariant
                i <= self.inputs.len(),
                ins == input_views(self.inputs@),
                out@ == head + inputs_bytes(ins.take(i as int)),
            decreases self.inputs.len() - i,
        {
            write_map(&mut out, &self.inputs[i].entries());
            proof {
                lemma_inputs_bytes_push(ins.take(i as int), ins[i as int]);
                assert(ins.take(i as int + 1) =~= ins.take(i as int).push(ins[i as int]));
                assert(out@ =~= head + inputs_bytes(ins.take(i as int + 1)));
            }
            i += 1;
        }
        proof {
            assert(ins.take(i as int) =~= ins);
        }
        let ghost body = out@;
        let ghost outs = output_views(self.outputs@);
        let mut j: usize = 0;
        proof {
            assert(outs.take(0) =~= Seq::empty());
            assert(out@ =~= body + outputs_bytes(outs.take(0)));
        }
        while j < self.outputs.len()
            invariant
                j <= self.outputs.len(),
                outs == output_views(self.outputs@),
                out@ == body + outputs_bytes(outs.take(j as int)),
            decreases self.outputs.len() - j,
        {
            write_map(&mut out, &self.outputs[j].entries());
            proof {
                lemma_outputs_bytes_push(outs.take(j as int), outs[j as int]);
                assert(outs.take(j as int + 1) =~= outs.take(j as int).push(outs[j as int]));
                assert(out@ =~= body + outputs_bytes(outs.take(j as int + 1)));
            }
            j += 1;
        }
        proof {
            assert(outs.take(j as int) =~= outs);
            if self@.wf() {
                lemma_round_trip(self@);
            }
        }
        out
    }

    /// A container for an unsigned transaction, with nothing known yet of its
    /// inputs and outputs. There is none where the bytes are no unsigned
    /// transaction.
    pub fn from_unsigned_tx(tx: &[u8]) -> (r: Result<Psbt, DecodeError>)
        ensures
            match r {
                Ok(p) => unsigned_counts(tx@) is Some && p@ == (PsbtView {
                    global: GlobalView { unsigned_tx: tx@, unknown: Seq::empty() },
                    inputs: Seq::new(unsigned_counts(tx@).unwrap().0, |i: int| InputView::empty()),
                    outputs: Seq::new(
                        unsigned_counts(tx@).unwrap().1,
                        |i: int| OutputView::empty(),
                    ),
                }) && p@.wf(),
                Err(e) => e == DecodeError::InvalidTransaction && unsigned_counts(tx@) is None,
            },
    {
        // The length is a machine number, so a size prefix can hold it.
        let _tx_len: usize = tx.len();
        let (n_in, n_out) = match count_unsigned(tx) {
            Err(e) => {
                return Err(e);
            },
            Ok(found) => found,
        };
        let mut inputs: Vec<Input> = Vec::new();
        let mut i: usize = 0;
        while i < n_in
            invariant
                i <= n_in,
                inputs@.len() == i,
                forall|k: int| 0 <= k < i ==> (#[trigger] inputs@[k])@ == InputView::empty(),
            decreases n_in - i,
        {
            inputs.push(Input::new());
            i += 1;
        }
        let mut outputs: Vec<Output> = Vec::new();
        let mut j: usize = 0;
        while j < n_out
            invariant
                j <= n_out,
                outputs@.len() == j,
                forall|k: int| 0 <= k < j ==> (#[trigger] outputs@[k])@ == OutputView::empty(),
            decreases n_out - j,
        {
            outputs.push(Output::new());
            j += 1;
        }
        let global = Global { unsigned_tx: copy_bytes(tx), unknown: Vec::new() };
        let p = Psbt { global, inputs, outputs };
        proof {
            assert(p@.global.unknown =~= Seq::empty());
            assert(p@.inputs =~= Seq::new(n_in as nat, |i: int| InputView::empty()));
            assert(p@.outputs =~= Seq::new(n_out as nat, |i: int| OutputView::empty()));
        }
        Ok(p)
    }
}

} // verus!
