//! The state that the PPK2 data path keeps between USB events, the reaction
//! to a command packet, and the packing of ADC blocks into USB packets.

use vstd::prelude::*;
use crate::ppk2::command::{Commands, decode_command};
use crate::ppk2::measurement::{
    make_ppk2_measurement_data, measurement_computable, measurement_computable_check, ppk2_word,
    scaled_average,
};

verus! {

/// Measurement words per USB packet.
pub const PPK2_SAMPLES_PER_USB_PACKET: usize = 16;

/// What the probe does in answer to a command packet.
#[derive(Clone, Copy, Debug, PartialEq, Eq, Structural)]
pub enum Ppk2Action {
    /// Send the calibration metadata text in 64-byte packets.
    SendMetadata,
    /// Start the ADC; measurements are streamed from now on.
    StartSampling,
    /// Stop the ADC; measurements are no longer streamed.
    StopSampling,
    /// Drive the power-out enable pin low.
    PowerOutDisable,
    /// Drive the power-out enable pin high.
    PowerOutEnable,
    /// Nothing to do (unsupported, unknown or malformed command).
    Ignore,
}

/// The action for a command packet.
pub open spec fn command_action(packet: Seq<u8>) -> Ppk2Action {
    match decode_command(packet[0]) {
        Commands::GetMetaData => Ppk2Action::SendMetadata,
        Commands::AverageStart => Ppk2Action::StartSampling,
        Commands::AverageStop => Ppk2Action::StopSampling,
        Commands::DeviceRunningSet => if packet[1] == 0 {
            Ppk2Action::PowerOutDisable
        } else if packet[1] == 1 {
            Ppk2Action::PowerOutEnable
        } else {
            Ppk2Action::Ignore
        },
        _ => Ppk2Action::Ignore,
    }
}

/// Whether streaming is on after one command packet, given whether it was
/// on before: a start turns it on, a stop turns it off, any other command
/// leaves it.
pub open spec fn streaming_after_command(enabled: bool, packet: Seq<u8>) -> bool {
    match command_action(packet) {
        Ppk2Action::StartSampling => true,
        Ppk2Action::StopSampling => false,
        _ => enabled,
    }
}

/// Whether streaming is on after a run of command packets, in order.
pub open spec fn streaming_after_commands(enabled: bool, packets: Seq<Seq<u8>>) -> bool
    decreases packets.len(),
{
    if packets.len() == 0 {
        enabled
    } else {
        streaming_after_command(
            streaming_after_commands(enabled, packets.drop_last()),
            packets.last(),
        )
    }
}

/// Whether a command packet starts or stops the stream.
pub open spec fn is_start_or_stop(packet: Seq<u8>) -> bool {
    command_action(packet) is StartSampling || command_action(packet) is StopSampling
}

/// What each command byte does: 0x06 starts sampling, 0x07 stops it, 0x19
/// asks for the metadata, and 0x0C with a data byte 0 or 1 switches the
/// power output off or on; every other packet is ignored. Only 0x06 and
/// 0x07 change whether measurements stream.
pub proof fn lemma_command_bytes(packet: Seq<u8>, enabled: bool)
    requires
        packet.len() >= 1,
    ensures
        packet[0] == 0x06 ==> command_action(packet) == Ppk2Action::StartSampling,
        packet[0] == 0x07 ==> command_action(packet) == Ppk2Action::StopSampling,
        packet[0] == 0x19 ==> command_action(packet) == Ppk2Action::SendMetadata,
        packet[0] == 0x0C && packet.len() >= 2 ==> command_action(packet) == if packet[1] == 0 {
            Ppk2Action::PowerOutDisable
        } else if packet[1] == 1 {
            Ppk2Action::PowerOutEnable
        } else {
            Ppk2Action::Ignore
        },
        packet[0] != 0x06 && packet[0] != 0x07 && packet[0] != 0x19 && packet[0] != 0x0C
            ==> command_action(packet) == Ppk2Action::Ignore,
        streaming_after_command(enabled, packet) == if packet[0] == 0x06 {
            true
        } else if packet[0] == 0x07 {
            false
        } else {
            enabled
        },
{
}

/// The packets that the probe accepts: a command byte, followed by the data
/// byte that `DeviceRunningSet` reads.
pub open spec fn command_packet_readable(packet: Seq<u8>) -> bool {
    &&& packet.len() >= 1
    &&& decode_command(packet[0]) is DeviceRunningSet ==> packet.len() >= 2
}

/// The runs of `samples` from `pos` on, each of `size` samples but the last
/// (the runs that `samples[pos..].chunks(size)` yields).
pub open spec fn chunks_from(samples: Seq<u16>, size: nat, pos: nat) -> Seq<Seq<u16>>
    decreases samples.len() - pos,
{
    if size == 0 || pos >= samples.len() {
        Seq::empty()
    } else if pos + size >= samples.len() {
        seq![samples.subrange(pos as int, samples.len() as int)]
    } else {
        seq![samples.subrange(pos as int, (pos + size) as int)] + chunks_from(
            samples,
            size,
            pos + size,
        )
    }
}

/// `counter + k`, wrapping at 2^32.
pub open spec fn counter_plus(counter: u32, k: nat) -> u32 {
    ((counter as nat + k) % 0x1_0000_0000) as u32
}

/// The measurement word of the `k`-th run, numbered from `counter`.
pub open spec fn run_word(runs: Seq<Seq<u16>>, k: int, adc_bit_resolution: nat, counter: u32) -> u32 {
    ppk2_word(scaled_average(runs[k], adc_bit_resolution) as u32, 0, counter_plus(counter, k as nat))
}

/// The measurement words of the first 16 runs, numbered from `counter`.
pub open spec fn packet_words(runs: Seq<Seq<u16>>, adc_bit_resolution: nat, counter: u32) -> Seq<u32> {
    Seq::new(
        PPK2_SAMPLES_PER_USB_PACKET as nat,
        |j: int| run_word(runs, j, adc_bit_resolution, counter),
    )
}

/// A USB transfer of the PPK2 data path that failed.
#[derive(Clone, Copy, Debug, PartialEq, Eq, Structural)]
pub enum Ppk2UsbFailure {
    /// Reading a command packet failed.
    CommandRead,
    /// Writing the answer to a command (the metadata text) failed.
    CommandReply,
    /// Writing a packet of measurements failed.
    MeasurementWrite,
}

/// What the data path does after a failed USB transfer.
#[derive(Clone, Copy, Debug, PartialEq, Eq, Structural)]
pub enum Ppk2Recovery {
    /// Treat the host as gone and wait for it to connect again; the session
    /// keeps its state.
    Disconnect,
    /// Drop the rest of the current ADC block and go on.
    DropBlock,
}

/// A failed command transfer means the host is gone; a failed measurement
/// write only drops the rest of its block.
pub open spec fn recovery_for(failure: Ppk2UsbFailure) -> Ppk2Recovery {
    match failure {
        Ppk2UsbFailure::MeasurementWrite => Ppk2Recovery::DropBlock,
        _ => Ppk2Recovery::Disconnect,
    }
}

/// What to do after a failed USB transfer.
pub fn ppk2_recovery(failure: Ppk2UsbFailure) -> (r: Ppk2Recovery)
    ensures
        r == recovery_for(failure),
{
    match failure {
        Ppk2UsbFailure::MeasurementWrite => Ppk2Recovery::DropBlock,
        _ => Ppk2Recovery::Disconnect,
    }
}

/// The PPK2 data path state that lasts across USB connections.
pub struct Ppk2Session {
    /// Whether measurements are streamed to the host.
    pub send_data_enable: bool,
    /// The number of measurements made so far, wrapping at 2^32.
    pub measurement_counter: u32,
}

impl Ppk2Session {
    /// A session that streams nothing yet, with its counter at zero.
    pub fn new() -> (r: Self)
        ensures
            !r.send_data_enable,
            r.measurement_counter == 0,
    {
        Ppk2Session { send_data_enable: false, measurement_counter: 0 }
    }

    /// Interprets one command packet: starting and stopping the stream turns
    /// streaming on and off; the action says what else to do.
    pub fn process_command(&mut self, usb_data: &[u8]) -> (action: Ppk2Action)
        requires
            command_packet_readable(usb_data@),
        ensures
            action == command_action(usb_data@),
            final(self).send_data_enable == streaming_after_command(
                old(self).send_data_enable,
                usb_data@,
            ),
            final(self).measurement_counter == old(self).measurement_counter,
    {
        let command = Commands::from(usb_data[0]);
        match command {
            Commands::GetMetaData => Ppk2Action::SendMetadata,
            Commands::AverageStart => {
                self.send_data_enable = true;
                Ppk2Action::StartSampling
            },
            Commands::AverageStop => {
                self.send_data_enable = false;
                Ppk2Action::StopSampling
            },
            Commands::DeviceRunningSet => {
                if usb_data[1] == 0 {
                    Ppk2Action::PowerOutDisable
                } else if usb_data[1] == 1 {
                    Ppk2Action::PowerOutEnable
                } else {
                    Ppk2Action::Ignore
                }
            },
            _ => Ppk2Action::Ignore,
        }
    }
}

/// Counting up by one more step from `counter + k` wraps like counting
/// `k + 1` steps at once.
proof fn lemma_counter_step(counter: u32, k: nat)
    ensures
        vstd::wrapping::u32_specs::wrapping_add(counter_plus(counter, k), 1) == counter_plus(counter, k + 1),
{
}

/// The first run starting at `pos`, and the runs after it.
proof fn lemma_chunks_unfold(samples: Seq<u16>, size: nat, pos: nat)
    requires
        size > 0,
        pos < samples.len(),
    ensures
        ({
            let end = if samples.len() - pos <= size { samples.len() } else { pos + size };
            &&& chunks_from(samples, size, pos).len() >= 1
            &&& chunks_from(samples, size, pos)[0] == samples.subrange(pos as int, end as int)
            &&& chunks_from(samples, size, pos).skip(1) == chunks_from(samples, size, end)
        }),
{
    let end = if samples.len() - pos <= size { samples.len() } else { pos + size };
    if pos + size >= samples.len() {
        assert(chunks_from(samples, size, pos).skip(1) =~= Seq::<Seq<u16>>::empty());
    } else {
        assert(chunks_from(samples, size, pos).skip(1) =~= chunks_from(samples, size, end));
    }
}

/// Whether the next packet's runs, from sample `pos` on, can all be
/// measured (the condition that `next_packet` requires).
pub fn packet_runs_computable(
    adc_data: &[u16],
    oversampling_factor: usize,
    adc_bit_resolution: usize,
    pos: usize,
) -> (r: bool)
    requires
        oversampling_factor > 0,
        pos <= adc_data@.len(),
    ensures
        r == forall|k: int|
            0 <= k < chunks_from(adc_data@, oversampling_factor as nat, pos as nat).len() && k
                < PPK2_SAMPLES_PER_USB_PACKET ==> #[trigger] measurement_computable(
                chunks_from(adc_data@, oversampling_factor as nat, pos as nat)[k],
                adc_bit_resolution as nat,
            ),
{
    let ghost runs = chunks_from(adc_data@, oversampling_factor as nat, pos as nat);
    let mut p = pos;
    let mut j: usize = 0;
    assert(runs.skip(0) =~= runs);
    while j < PPK2_SAMPLES_PER_USB_PACKET && p < adc_data.len()
        invariant
            oversampling_factor > 0,
            p <= adc_data@.len(),
            j <= PPK2_SAMPLES_PER_USB_PACKET,
            j <= runs.len(),
            runs == chunks_from(adc_data@, oversampling_factor as nat, pos as nat),
            chunks_from(adc_data@, oversampling_factor as nat, p as nat) == runs.skip(j as int),
            forall|k: int| 0 <= k < j ==> #[trigger] measurement_computable(runs[k], adc_bit_resolution as nat),
        decreases PPK2_SAMPLES_PER_USB_PACKET - j,
    {
        let end = if adc_data.len() - p <= oversampling_factor {
            adc_data.len()
        } else {
            p + oversampling_factor
        };
        proof {
            lemma_chunks_unfold(adc_data@, oversampling_factor as nat, p as nat);
            assert(runs[j as int] == runs.skip(j as int)[0]);
            assert(runs.skip(j + 1int) =~= runs.skip(j as int).skip(1));
        }
        if !measurement_computable_check(&adc_data[p..end], adc_bit_resolution) {
            return false;
        }
        p = end;
        j += 1;
    }
    proof {
        if j < PPK2_SAMPLES_PER_USB_PACKET {
            assert(runs.skip(j as int).len() == 0);
        }
    }
    true
}

/// The little-endian bytes of a run of 32-bit words.
pub open spec fn le_word_bytes(words: Seq<u32>) -> Seq<u8> {
    Seq::new(4 * words.len(), |i: int| ((words[i / 4] >> ((8 * (i % 4)) as u32)) & 0xff) as u8)
}

/// The big-endian bytes of a run of 32-bit words.
pub open spec fn be_word_bytes(words: Seq<u32>) -> Seq<u8> {
    Seq::new(4 * words.len(), |i: int| ((words[i / 4] >> ((8 * (3 - i % 4)) as u32)) & 0xff) as u8)
}

/// `bytemuck::cast_slice` from words to bytes: the memory of the words seen
/// as bytes, four per word in the byte order of the machine (little-endian
/// on the probe's microcontrollers). Which of the two orders holds is not
/// stated, as it depends on the machine.
#[verifier::external_body]
fn cast_words_to_bytes(words: &[u32]) -> (r: &[u8])
    ensures
        r@ == le_word_bytes(words@) || r@ == be_word_bytes(words@),
{
    bytemuck::cast_slice(words)
}

impl Ppk2Session {
    /// Measures the next runs of `oversampling_factor` samples of an ADC
    /// block, from sample `pos` on, numbering them with the session counter.
    /// When streaming is on and 16 runs remain, returns the USB packet of
    /// their 16 words, each in the machine's byte order, and the position
    /// after them; when fewer remain, they are counted and dropped and
    /// `None` is returned. When streaming is off, nothing happens and
    /// nothing is asked of the arguments.
    pub fn next_packet(
        &mut self,
        adc_data: &[u16],
        oversampling_factor: usize,
        adc_bit_resolution: usize,
        pos: usize,
    ) -> (r: Option<(Vec<u8>, usize)>)
        requires
            old(self).send_data_enable ==> {
                &&& oversampling_factor > 0
                &&& pos <= adc_data@.len()
                &&& forall|k: int|
                    0 <= k < chunks_from(adc_data@, oversampling_factor as nat, pos as nat).len()
                        && k < PPK2_SAMPLES_PER_USB_PACKET ==> #[trigger] measurement_computable(
                        chunks_from(adc_data@, oversampling_factor as nat, pos as nat)[k],
                        adc_bit_resolution as nat,
                    )
            },
        ensures
            final(self).send_data_enable == old(self).send_data_enable,
            !old(self).send_data_enable ==> r is None && final(self).measurement_counter
                == old(self).measurement_counter,
            old(self).send_data_enable ==> ({
                let runs = chunks_from(adc_data@, oversampling_factor as nat, pos as nat);
                if runs.len() >= PPK2_SAMPLES_PER_USB_PACKET {
                    r matches Some((packet, next)) && {
                        &&& (packet@ == le_word_bytes(
                            packet_words(runs, adc_bit_resolution as nat, old(self).measurement_counter),
                        ) || packet@ == be_word_bytes(
                            packet_words(runs, adc_bit_resolution as nat, old(self).measurement_counter),
                        ))
                        &&& next <= adc_data@.len()
                        &&& chunks_from(adc_data@, oversampling_factor as nat, next as nat)
                            == runs.skip(PPK2_SAMPLES_PER_USB_PACKET as int)
                        &&& final(self).measurement_counter == counter_plus(
                            old(self).measurement_counter,
                            PPK2_SAMPLES_PER_USB_PACKET as nat,
                        )
                    }
                } else {
                    &&& r is None
                    &&& final(self).measurement_counter == counter_plus(
                        old(self).measurement_counter,
                        runs.len(),
                    )
                }
            }),
    {
        if !self.send_data_enable {
            return None;
        }
        let ghost runs = chunks_from(adc_data@, oversampling_factor as nat, pos as nat);
        let ghost c0 = self.measurement_counter;
        let mut words: Vec<u32> = Vec::new();
        let mut p = pos;
        assert(runs.skip(0) =~= runs);
        while words.len() < PPK2_SAMPLES_PER_USB_PACKET && p < adc_data.len()
            invariant
                oversampling_factor > 0,
                p <= adc_data@.len(),
                words@.len() <= PPK2_SAMPLES_PER_USB_PACKET,
                words@.len() <= runs.len(),
                runs == chunks_from(adc_data@, oversampling_factor as nat, pos as nat),
                chunks_from(adc_data@, oversampling_factor as nat, p as nat) == runs.skip(
                    words@.len() as int,
                ),
                forall|j: int|
                    0 <= j < words@.len() ==> words@[j] == run_word(
                        runs,
                        j,
                        adc_bit_resolution as nat,
                        c0,
                    ),
                self.measurement_counter == counter_plus(c0, words@.len()),
                self.send_data_enable,
                forall|k: int|
                    0 <= k < runs.len() && k < PPK2_SAMPLES_PER_USB_PACKET
                        ==> #[trigger] measurement_computable(runs[k], adc_bit_resolution as nat),
            decreases PPK2_SAMPLES_PER_USB_PACKET - words@.len(),
        {
            let end = if adc_data.len() - p <= oversampling_factor {
                adc_data.len()
            } else {
                p + oversampling_factor
            };
            proof {
                lemma_chunks_unfold(adc_data@, oversampling_factor as nat, p as nat);
                assert(runs[words@.len() as int] == runs.skip(words@.len() as int)[0]);
                assert(runs.skip(words@.len() + 1int) =~= runs.skip(words@.len() as int).skip(1));
            }
            let chunk = &adc_data[p..end];
            let w = make_ppk2_measurement_data(
                chunk,
                adc_bit_resolution,
                self.measurement_counter,
                0,
            );
            proof {
                lemma_counter_step(c0, words@.len());
            }
            words.push(w);
            self.measurement_counter = self.measurement_counter.wrapping_add(1);
            p = end;
        }
        if words.len() == PPK2_SAMPLES_PER_USB_PACKET {
            assert(words@ =~= packet_words(runs, adc_bit_resolution as nat, c0));
            let bytes = cast_words_to_bytes(words.as_slice());
            let mut packet: Vec<u8> = Vec::new();
            let mut i: usize = 0;
            while i < bytes.len()
                invariant
                    i <= bytes@.len(),
                    packet@ == bytes@.subrange(0, i as int),
                decreases bytes@.len() - i,
            {
                packet.push(bytes[i]);
                i += 1;
            }
            assert(packet@ =~= bytes@);
            Some((packet, p))
        } else {
            proof {
                assert(runs.skip(words@.len() as int).len() == 0);
            }
            None
        }
    }
}

/// The ways a USB endpoint transfer can fail.
#[derive(Clone, Copy, Debug, PartialEq, Eq, Structural)]
pub enum UsbEndpointError {
    /// The packet did not fit the buffer.
    BufferOverflow,
    /// The endpoint is disabled: the host is gone.
    Disabled,
}

/// The host went away.
#[derive(Clone, Copy, Debug, PartialEq, Eq, Structural)]
pub struct Disconnected {}

/// The disconnection that an endpoint error means. A buffer overflow is a
/// programming error of the probe, not a disconnection, and is excluded.
pub fn disconnected_from(err: UsbEndpointError) -> (r: Disconnected)
    requires
        err == UsbEndpointError::Disabled,
{
    Disconnected {}
}

/// The runs of an ADC block, joined end to end, are the samples from `pos`
/// on: every sample lands in exactly one run, in order; every run but the
/// last holds `size` samples, and none is empty.
pub proof fn lemma_chunks_cover(samples: Seq<u16>, size: nat, pos: nat)
    requires
        size > 0,
        pos <= samples.len(),
    ensures
        chunks_from(samples, size, pos).flatten() == samples.subrange(pos as int, samples.len() as int),
        forall|k: int|
            0 <= k < chunks_from(samples, size, pos).len() ==> {
                &&& #[trigger] chunks_from(samples, size, pos)[k].len() >= 1
                &&& chunks_from(samples, size, pos)[k].len() <= size
                &&& k + 1 < chunks_from(samples, size, pos).len() ==> chunks_from(samples, size, pos)[k].len() == size
            },
    decreases samples.len() - pos,
{
    let runs = chunks_from(samples, size, pos);
    if pos >= samples.len() {
        assert(runs.flatten() =~= Seq::<u16>::empty()) by {
            assert(runs =~= Seq::<Seq<u16>>::empty());
        }
        assert(samples.subrange(pos as int, samples.len() as int) =~= Seq::<u16>::empty());
    } else if pos + size >= samples.len() {
        let only = samples.subrange(pos as int, samples.len() as int);
        assert(runs =~= seq![only]);
        seq![only].lemma_flatten_one_element();
    } else {
        let first = samples.subrange(pos as int, (pos + size) as int);
        let rest = chunks_from(samples, size, pos + size);
        lemma_chunks_cover(samples, size, pos + size);
        assert(runs == seq![first] + rest);
        vstd::seq_lib::lemma_flatten_concat(seq![first], rest);
        seq![first].lemma_flatten_one_element();
        assert(samples.subrange(pos as int, samples.len() as int) =~= first + samples.subrange(
            (pos + size) as int,
            samples.len() as int,
        ));
        assert forall|k: int| 0 <= k < runs.len() implies {
            &&& #[trigger] runs[k].len() >= 1
            &&& runs[k].len() <= size
            &&& k + 1 < runs.len() ==> runs[k].len() == size
        } by {
            if k > 0 {
                assert(runs[k] == rest[k - 1]);
            }
        }
    }
}

/// Numbering continues across packets: the run after the first `n` runs of
/// a block is numbered as the first run of the rest, counted from the
/// counter advanced by `n`.
pub proof fn lemma_packet_numbering_continues(
    runs: Seq<Seq<u16>>,
    n: nat,
    j: int,
    adc_bit_resolution: nat,
    counter: u32,
)
    requires
        0 <= j,
        n + j < runs.len(),
    ensures
        run_word(runs, n + j, adc_bit_resolution, counter) == run_word(
            runs.skip(n as int),
            j,
            adc_bit_resolution,
            counter_plus(counter, n),
        ),
{
    assert(runs.skip(n as int)[j] == runs[n + j]);
    assert(counter_plus(counter_plus(counter, n), j as nat) == counter_plus(counter, (n + j) as nat));
}

/// Measurements stream only after a start: in a session that began with
/// streaming off, streaming is on after a run of command packets exactly
/// when one of them started sampling and none after it started or stopped
/// it (and `next_packet` sends nothing while streaming is off).
pub proof fn lemma_streaming_follows_last_start_stop(packets: Seq<Seq<u8>>)
    ensures
        streaming_after_commands(false, packets) == exists|i: int|
            0 <= i < packets.len() && #[trigger] command_action(packets[i]) is StartSampling
                && forall|j: int| i < j < packets.len() ==> !is_start_or_stop(#[trigger] packets[j]),
    decreases packets.len(),
{
    if packets.len() > 0 {
        let n = packets.len() - 1;
        let prefix = packets.drop_last();
        lemma_streaming_follows_last_start_stop(prefix);
        let last = packets[n];
        assert(packets.last() == last);
        if command_action(last) is StartSampling {
            assert(forall|j: int| n < j < packets.len() ==> !is_start_or_stop(#[trigger] packets[j]));
        } else if command_action(last) is StopSampling {
            if exists|i: int|
                0 <= i < packets.len() && #[trigger] command_action(packets[i]) is StartSampling
                    && forall|j: int| i < j < packets.len() ==> !is_start_or_stop(#[trigger] packets[j]) {
                let i = choose|i: int|
                    0 <= i < packets.len() && #[trigger] command_action(packets[i]) is StartSampling
                        && forall|j: int| i < j < packets.len() ==> !is_start_or_stop(
                            #[trigger] packets[j],
                        );
                if i < n {
                    assert(!is_start_or_stop(packets[n]));
                }
            }
        } else {
            assert(!is_start_or_stop(last));
            if exists|i: int|
                0 <= i < packets.len() && #[trigger] command_action(packets[i]) is StartSampling
                    && forall|j: int| i < j < packets.len() ==> !is_start_or_stop(#[trigger] packets[j]) {
                let i = choose|i: int|
                    0 <= i < packets.len() && #[trigger] command_action(packets[i]) is StartSampling
                        && forall|j: int| i < j < packets.len() ==> !is_start_or_stop(
                            #[trigger] packets[j],
                        );
                assert(i < n);
                assert(prefix[i] == packets[i]);
                assert forall|j: int| i < j < prefix.len() implies !is_start_or_stop(
                    #[trigger] prefix[j],
                ) by {
                    assert(prefix[j] == packets[j]);
                }
            }
            if exists|i: int|
                0 <= i < prefix.len() && #[trigger] command_action(prefix[i]) is StartSampling
                    && forall|j: int| i < j < prefix.len() ==> !is_start_or_stop(#[trigger] prefix[j]) {
                let i = choose|i: int|
                    0 <= i < prefix.len() && #[trigger] command_action(prefix[i]) is StartSampling
                        && forall|j: int| i < j < prefix.len() ==> !is_start_or_stop(
                            #[trigger] prefix[j],
                        );
                assert(prefix[i] == packets[i]);
                assert forall|j: int| i < j < packets.len() implies !is_start_or_stop(
                    #[trigger] packets[j],
                ) by {
                    if j < n {
                        assert(prefix[j] == packets[j]);
                    }
                }
            }
        }
    }
}

/// The words of the packets of one ADC block, one group of 16 runs per
/// packet, numbered on from `counter`: what successive calls of
/// `next_packet` from the block's start return while streaming.
pub open spec fn block_packet_words(runs: Seq<Seq<u16>>, adc_bit_resolution: nat, counter: u32) -> Seq<
    Seq<u32>,
>
    decreases runs.len(),
{
    if runs.len() < PPK2_SAMPLES_PER_USB_PACKET {
        Seq::empty()
    } else {
        seq![packet_words(runs, adc_bit_resolution, counter)] + block_packet_words(
            runs.skip(PPK2_SAMPLES_PER_USB_PACKET as int),
            adc_bit_resolution,
            counter_plus(counter, PPK2_SAMPLES_PER_USB_PACKET as nat),
        )
    }
}

/// The session counter after successive calls of `next_packet` have gone
/// through one ADC block.
pub open spec fn block_counter_after(runs: Seq<Seq<u16>>, counter: u32) -> u32
    decreases runs.len(),
{
    if runs.len() < PPK2_SAMPLES_PER_USB_PACKET {
        counter_plus(counter, runs.len())
    } else {
        block_counter_after(
            runs.skip(PPK2_SAMPLES_PER_USB_PACKET as int),
            counter_plus(counter, PPK2_SAMPLES_PER_USB_PACKET as nat),
        )
    }
}

/// The packet stream of a block is its runs in order: a block of `m` runs
/// gives `m / 16` packets; word `j` of packet `p` is the word of run
/// `16 * p + j`, numbered `counter + 16 * p + j`; and the counter ends
/// advanced by `m`, the last `m % 16` runs counted but not sent.
pub proof fn lemma_block_stream_is_runs_in_order(
    runs: Seq<Seq<u16>>,
    adc_bit_resolution: nat,
    counter: u32,
)
    ensures
        block_packet_words(runs, adc_bit_resolution, counter).len() == runs.len() / 16,
        forall|p: int, j: int|
            0 <= p < runs.len() / 16 && 0 <= j < 16 ==> #[trigger] block_packet_words(
                runs,
                adc_bit_resolution,
                counter,
            )[p][j] == run_word(runs, 16 * p + j, adc_bit_resolution, counter),
        block_counter_after(runs, counter) == counter_plus(counter, runs.len()),
    decreases runs.len(),
{
    if runs.len() >= 16 {
        let rest = runs.skip(16);
        let c16 = counter_plus(counter, 16);
        lemma_block_stream_is_runs_in_order(rest, adc_bit_resolution, c16);
        let words = block_packet_words(runs, adc_bit_resolution, counter);
        let rest_words = block_packet_words(rest, adc_bit_resolution, c16);
        assert(words == seq![packet_words(runs, adc_bit_resolution, counter)] + rest_words);
        assert((runs.len() - 16) / 16 == runs.len() / 16 - 1);
        assert forall|p: int, j: int| 0 <= p < runs.len() / 16 && 0 <= j < 16 implies #[trigger] words[p][j]
            == run_word(runs, 16 * p + j, adc_bit_resolution, counter) by {
            if p > 0 {
                assert(words[p] == rest_words[p - 1]);
                assert(16 * (p - 1) + j == 16 * p + j - 16);
                lemma_packet_numbering_continues(
                    runs,
                    16,
                    16 * (p - 1) + j,
                    adc_bit_resolution,
                    counter,
                );
            }
        }
        assert(counter_plus(c16, rest.len()) == counter_plus(counter, runs.len()));
    } else {
        assert(runs.len() / 16 == 0);
    }
}

} // verus!
