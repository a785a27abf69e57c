//! The TFTP connection state machine: a pure decision function from
//! (state, event) to (state, response).
//!
//! The machine owns no sockets and measures no time.  The driver feeds
//! it received packets and timeout events and carries out the response:
//! send the packet, then close or wait.  Every transition is stated by
//! the spec function [`step`], and `handle_event` is proved to follow
//! it exactly whenever the file reads it depends on succeed.

use crate::bytes::{clone_bytes, dec_repr, eq_ignore_case, lower_seq, parse_u16, render_u16,
    spec_parse_u16};
use crate::path::{join_path, join_path_exec, normalize, spec_normalize};
use crate::simple_fs::{read_window, File, Filesystem, FsError};
use crate::simple_proto::{
    ConnectionStatus, Event, EventView, Response, ResponseView, SimpleUdpProtocol,
};
use crate::tftp::{
    lemma_opts_view_index, opts_view, OptionView, Packet, PacketView, RequestOption,
    ERROR_ACCESS_VIOLATION, ERROR_ILLEGAL_OPERATION, ERROR_UNDEFINED,
};
use vstd::prelude::*;
use vstd::string::StringSliceAdditionalSpecFns;

verus! {

/// How long the driver waits for the next packet, in milliseconds.
pub const DEFAULT_TFTP_TIMEOUT_MS: u64 = 1000;

/// The block size of a transfer that negotiated none.
pub const DEFAULT_TFTP_BLKSIZE: u16 = 512;

/// How many times a packet is resent when no response arrives.
pub const MAX_RETRANSMISSIONS: u32 = 5;

/// The smallest negotiable block size (RFC 2348).
pub const BLKSIZE_MIN: u16 = 8;

/// The largest negotiable block size (RFC 2348).
pub const BLKSIZE_MAX: u16 = 65464;

/// The bytes of the option name `blksize`.
pub open spec fn blksize_bytes() -> Seq<u8> {
    seq![98u8, 108u8, 107u8, 115u8, 105u8, 122u8, 101u8]
}

/// The bytes of the option name `blksize`.
fn blksize_vec() -> (r: Vec<u8>)
    ensures
        r@ == blksize_bytes(),
{
    let mut v: Vec<u8> = Vec::new();
    // "blksize"
    v.push(98);
    v.push(108);
    v.push(107);
    v.push(115);
    v.push(105);
    v.push(122);
    v.push(101);
    proof {
        assert(v@ =~= blksize_bytes());
    }
    v
}

/// The message sent when a write request is rejected.
pub open spec fn msg_write_denied() -> Seq<u8> {
    "This server only supports reading files".spec_bytes()
}

/// The message sent when a write request is rejected.
fn msg_write_denied_vec() -> (r: Vec<u8>)
    ensures
        r@ == msg_write_denied(),
{
    vstd::slice::slice_to_vec("This server only supports reading files".as_bytes())
}

/// The message sent when the requested path cannot be normalized.
pub open spec fn msg_normalize_failed() -> Seq<u8> {
    "Failed to normalize path".spec_bytes()
}

/// The message sent when the requested path cannot be normalized.
fn msg_normalize_failed_vec() -> (r: Vec<u8>)
    ensures
        r@ == msg_normalize_failed(),
{
    vstd::slice::slice_to_vec("Failed to normalize path".as_bytes())
}

/// The message sent when the requested file cannot be opened.
pub open spec fn msg_open_failed() -> Seq<u8> {
    "Failed to open file".spec_bytes()
}

/// The message sent when the requested file cannot be opened.
fn msg_open_failed_vec() -> (r: Vec<u8>)
    ensures
        r@ == msg_open_failed(),
{
    vstd::slice::slice_to_vec("Failed to open file".as_bytes())
}

/// The message sent when the first packet is no request at all.
pub open spec fn msg_bad_initial() -> Seq<u8> {
    "Initial request is not Rrq or Wrq".spec_bytes()
}

/// The message sent when the first packet is no request at all.
fn msg_bad_initial_vec() -> (r: Vec<u8>)
    ensures
        r@ == msg_bad_initial(),
{
    vstd::slice::slice_to_vec("Initial request is not Rrq or Wrq".as_bytes())
}

/// The message sent when something other than ACK 0 answers an OACK.
pub open spec fn msg_expected_ack0() -> Seq<u8> {
    "Expected ACK 0 as OACK response".spec_bytes()
}

/// The message sent when something other than ACK 0 answers an OACK.
fn msg_expected_ack0_vec() -> (r: Vec<u8>)
    ensures
        r@ == msg_expected_ack0(),
{
    vstd::slice::slice_to_vec("Expected ACK 0 as OACK response".as_bytes())
}

/// The message sent when an unexpected packet arrives mid-transfer.
pub open spec fn msg_unexpected_packet() -> Seq<u8> {
    "Received unexpected packet. Closing connection.".spec_bytes()
}

/// The message sent when an unexpected packet arrives mid-transfer.
fn msg_unexpected_packet_vec() -> (r: Vec<u8>)
    ensures
        r@ == msg_unexpected_packet(),
{
    vstd::slice::slice_to_vec("Received unexpected packet. Closing connection.".as_bytes())
}

/// The options of a request that the server accepted.
#[derive(Debug, Clone, Copy, PartialEq, Eq, Default)]
struct AcceptedOptions {
    block_size: Option<u16>,
}

/// The block size the request negotiates: the value of the first
/// `blksize` option (compared ASCII-case-insensitively) that parses as
/// a decimal value in the negotiable range.  Malformed values,
/// out-of-range values and unknown options are ignored.
pub open spec fn accepted_block_size(opts: Seq<OptionView>) -> Option<u16>
    decreases opts.len(),
{
    if opts.len() == 0 {
        None
    } else {
        let o = opts[0];
        if lower_seq(o.name) == blksize_bytes() {
            match spec_parse_u16(o.value) {
                Some(v) => if BLKSIZE_MIN <= v && v <= BLKSIZE_MAX {
                    Some(v)
                } else {
                    accepted_block_size(opts.skip(1))
                },
                None => accepted_block_size(opts.skip(1)),
            }
        } else {
            accepted_block_size(opts.skip(1))
        }
    }
}

/// The options the server acknowledges, with the accepted value
/// rendered back in decimal.
pub open spec fn acked_options(bs: Option<u16>) -> Seq<OptionView> {
    match bs {
        None => seq![],
        Some(v) => seq![OptionView { name: blksize_bytes(), value: dec_repr(v as int) }],
    }
}

/// The block size a transfer runs with.
pub open spec fn chosen_block_size(bs: Option<u16>) -> u16 {
    match bs {
        None => DEFAULT_TFTP_BLKSIZE,
        Some(v) => v,
    }
}

/// The payload of wire block `block` (1-based) of a file, at block
/// size `bsz`: a full window, or a short one at the end of the file.
pub open spec fn block_payload(contents: Seq<u8>, block: int, bsz: int) -> Seq<u8> {
    read_window(contents, (block - 1) * bsz, bsz)
}

/// A 64-bit block counter truncated to its 16-bit wire form.
pub open spec fn wire_block(b: int) -> u16 {
    (b % 0x10000) as u16
}

/// The status that waits for the next packet.
pub open spec fn waiting() -> ConnectionStatus {
    ConnectionStatus::WaitingForPacket(DEFAULT_TFTP_TIMEOUT_MS)
}

/// Closing the connection without a word.
pub open spec fn silent_close() -> ResponseView<PacketView> {
    ResponseView { packet: None, next_status: ConnectionStatus::Terminated }
}

/// Closing the connection with an error packet.
pub open spec fn error_close(code: u16, msg: Seq<u8>) -> ResponseView<PacketView> {
    ResponseView {
        packet: Some(PacketView::Error { error_code: code, error_msg: msg }),
        next_status: ConnectionStatus::Terminated,
    }
}

/// The current state of a TFTP connection.
pub enum Connection<FS: Filesystem> {
    /// The connection is terminated.  No further events are expected.
    Dead,
    /// No initial packet has been seen yet.
    WaitingForInitialPacket { filesystem: FS, root: Vec<u8> },
    /// An OACK was sent; the corresponding ACK of block 0 is awaited.
    AcknowledgingOptions {
        file: FS::File,
        /// How many timeout events arrived while waiting for this ACK.
        timeout_events: u32,
        /// The options the OACK acknowledges.
        acknowledged_options: Vec<RequestOption>,
        /// The negotiated block size for data packets.
        block_size: u16,
    },
    /// The requested file is open and its contents are being sent.
    ReadingFile {
        file: FS::File,
        /// The last block the client acknowledged.  Wider than the
        /// 16-bit wire counter so that large transfers cannot confuse a
        /// stale duplicate with the next block.
        last_acked_block: u64,
        /// How many timeout events arrived for the outstanding block.
        timeout_events: u32,
        /// Whether the outstanding block is the short final one.
        last_was_final: bool,
        /// The negotiated block size for data packets.
        block_size: u16,
    },
}

/// The mathematical value of a connection: file handles stand as their
/// contents, the filesystem as its path-to-contents map.
pub enum ConnectionView {
    Dead,
    WaitingForInitialPacket { files: Map<Seq<u8>, Seq<u8>>, root: Seq<u8> },
    AcknowledgingOptions {
        contents: Seq<u8>,
        timeout_events: u32,
        acknowledged_options: Seq<OptionView>,
        block_size: u16,
    },
    ReadingFile {
        contents: Seq<u8>,
        last_acked_block: u64,
        timeout_events: u32,
        last_was_final: bool,
        block_size: u16,
    },
}

impl<FS: Filesystem> View for Connection<FS> {
    type V = ConnectionView;

    open spec fn view(&self) -> ConnectionView {
        match self {
            Connection::Dead => ConnectionView::Dead,
            Connection::WaitingForInitialPacket { filesystem, root } => {
                ConnectionView::WaitingForInitialPacket {
                    files: filesystem.files(),
                    root: root@,
                }
            },
            Connection::AcknowledgingOptions {
                file,
                timeout_events,
                acknowledged_options,
                block_size,
            } => ConnectionView::AcknowledgingOptions {
                contents: file.contents(),
                timeout_events: *timeout_events,
                acknowledged_options: opts_view(acknowledged_options@),
                block_size: *block_size,
            },
            Connection::ReadingFile {
                file,
                last_acked_block,
                timeout_events,
                last_was_final,
                block_size,
            } => ConnectionView::ReadingFile {
                contents: file.contents(),
                last_acked_block: *last_acked_block,
                timeout_events: *timeout_events,
                last_was_final: *last_was_final,
                block_size: *block_size,
            },
        }
    }
}

/// States whose numeric fields a transfer can actually reach: the
/// block size is positive, the contents fit in memory, and the counted
/// blocks lie within the file, so that offsets and counters cannot
/// overflow.
pub open spec fn wf_state(s: ConnectionView) -> bool {
    match s {
        ConnectionView::WaitingForInitialPacket { files, .. } => forall|p: Seq<u8>|
            files.dom().contains(p) ==> (#[trigger] files[p]).len() <= usize::MAX as int,
        ConnectionView::AcknowledgingOptions { contents, block_size, .. } => {
            &&& block_size >= 1
            &&& contents.len() <= usize::MAX as int
        },
        ConnectionView::ReadingFile {
            contents,
            last_acked_block,
            last_was_final,
            block_size,
            ..
        } => {
            &&& block_size >= 1
            &&& contents.len() <= usize::MAX as int
            &&& last_acked_block * block_size <= contents.len()
            &&& (!last_was_final ==> (last_acked_block + 1) * block_size <= contents.len())
        },
        _ => true,
    }
}

/// The transition a read request makes: normalize the requested path,
/// open it under the root, then either start the transfer at once or
/// first acknowledge the accepted options.
pub open spec fn initial_read(
    files: Map<Seq<u8>, Seq<u8>>,
    root: Seq<u8>,
    filename: Seq<u8>,
    bs: Option<u16>,
) -> (ConnectionView, ResponseView<PacketView>) {
    let acked = acked_options(bs);
    let bsz = chosen_block_size(bs);
    match spec_normalize(filename) {
        None => (ConnectionView::Dead, error_close(ERROR_UNDEFINED, msg_normalize_failed())),
        Some(rel) => {
            let full = join_path(root, rel);
            if files.dom().contains(full) {
                let contents = files[full];
                if acked.len() == 0 {
                    let data = block_payload(contents, 1, bsz as int);
                    (
                        ConnectionView::ReadingFile {
                            contents,
                            last_acked_block: 0,
                            timeout_events: 0,
                            last_was_final: data.len() < bsz,
                            block_size: bsz,
                        },
                        ResponseView {
                            packet: Some(PacketView::Data { block: 1, data }),
                            next_status: waiting(),
                        },
                    )
                } else {
                    (
                        ConnectionView::AcknowledgingOptions {
                            contents,
                            timeout_events: 0,
                            acknowledged_options: acked,
                            block_size: bsz,
                        },
                        ResponseView {
                            packet: Some(PacketView::OAck { options: acked }),
                            next_status: waiting(),
                        },
                    )
                }
            } else {
                (ConnectionView::Dead, error_close(ERROR_UNDEFINED, msg_open_failed()))
            }
        },
    }
}

/// The transition out of the initial state.
pub open spec fn step_initial(
    files: Map<Seq<u8>, Seq<u8>>,
    root: Seq<u8>,
    event: EventView<PacketView>,
) -> Option<(ConnectionView, ResponseView<PacketView>)> {
    match event {
        EventView::Timeout => None,
        EventView::PacketReceived(p) => match p {
            PacketView::Rrq { filename, mode, options } => Some(
                initial_read(files, root, filename, accepted_block_size(options)),
            ),
            PacketView::Wrq { filename, mode, options } => Some(
                (ConnectionView::Dead, error_close(ERROR_ACCESS_VIOLATION, msg_write_denied())),
            ),
            _ => Some(
                (ConnectionView::Dead, error_close(ERROR_ILLEGAL_OPERATION, msg_bad_initial())),
            ),
        },
    }
}

/// The transition while an option acknowledgement awaits its ACK.
pub open spec fn step_ackopts(
    contents: Seq<u8>,
    timeout_events: u32,
    acked: Seq<OptionView>,
    bsz: u16,
    event: EventView<PacketView>,
) -> Option<(ConnectionView, ResponseView<PacketView>)> {
    match event {
        EventView::PacketReceived(p) => match p {
            PacketView::Ack { block } => if block == 0 {
                let data = block_payload(contents, 1, bsz as int);
                Some(
                    (
                        ConnectionView::ReadingFile {
                            contents,
                            last_acked_block: 0,
                            timeout_events: 0,
                            last_was_final: data.len() < bsz,
                            block_size: bsz,
                        },
                        ResponseView {
                            packet: Some(PacketView::Data { block: 1, data }),
                            next_status: waiting(),
                        },
                    ),
                )
            } else {
                Some(
                    (
                        ConnectionView::Dead,
                        error_close(ERROR_ILLEGAL_OPERATION, msg_expected_ack0()),
                    ),
                )
            },
            _ => Some(
                (ConnectionView::Dead, error_close(ERROR_ILLEGAL_OPERATION, msg_expected_ack0())),
            ),
        },
        EventView::Timeout => if timeout_events >= MAX_RETRANSMISSIONS {
            Some((ConnectionView::Dead, silent_close()))
        } else {
            Some(
                (
                    ConnectionView::AcknowledgingOptions {
                        contents,
                        timeout_events: (timeout_events + 1) as u32,
                        acknowledged_options: acked,
                        block_size: bsz,
                    },
                    ResponseView {
                        packet: Some(PacketView::OAck { options: acked }),
                        next_status: waiting(),
                    },
                ),
            )
        },
    }
}

/// The transition while file contents are being sent.
pub open spec fn step_reading(
    contents: Seq<u8>,
    last_acked: u64,
    timeout_events: u32,
    last_was_final: bool,
    bsz: u16,
    event: EventView<PacketView>,
) -> Option<(ConnectionView, ResponseView<PacketView>)> {
    match event {
        EventView::PacketReceived(p) => match p {
            PacketView::Ack { block } => if block == wire_block(last_acked + 1) {
                if last_was_final {
                    Some((ConnectionView::Dead, silent_close()))
                } else {
                    let data = block_payload(contents, last_acked + 2, bsz as int);
                    Some(
                        (
                            ConnectionView::ReadingFile {
                                contents,
                                last_acked_block: (last_acked + 1) as u64,
                                timeout_events: 0,
                                last_was_final: data.len() < bsz,
                                block_size: bsz,
                            },
                            ResponseView {
                                packet: Some(
                                    PacketView::Data { block: wire_block(last_acked + 2), data },
                                ),
                                next_status: waiting(),
                            },
                        ),
                    )
                }
            } else {
                // A stale or duplicate ACK: ignore it and keep waiting.
                Some(
                    (
                        ConnectionView::ReadingFile {
                            contents,
                            last_acked_block: last_acked,
                            timeout_events,
                            last_was_final,
                            block_size: bsz,
                        },
                        ResponseView { packet: None, next_status: waiting() },
                    ),
                )
            },
            PacketView::Error { error_code, error_msg } => Some(
                (ConnectionView::Dead, silent_close()),
            ),
            _ => Some(
                (
                    ConnectionView::Dead,
                    error_close(ERROR_ILLEGAL_OPERATION, msg_unexpected_packet()),
                ),
            ),
        },
        EventView::Timeout => if timeout_events >= MAX_RETRANSMISSIONS {
            Some((ConnectionView::Dead, silent_close()))
        } else {
            let data = block_payload(contents, last_acked + 1, bsz as int);
            Some(
                (
                    ConnectionView::ReadingFile {
                        contents,
                        last_acked_block: last_acked,
                        timeout_events: (timeout_events + 1) as u32,
                        last_was_final: data.len() < bsz,
                        block_size: bsz,
                    },
                    ResponseView {
                        packet: Some(
                            PacketView::Data { block: wire_block(last_acked + 1), data },
                        ),
                        next_status: waiting(),
                    },
                ),
            )
        },
    }
}

/// Whether a transition's response carries a DATA packet.  These are
/// exactly the transitions that read the file, the one thing that can
/// fail.
pub open spec fn emits_data(res: Option<(ConnectionView, ResponseView<PacketView>)>) -> bool {
    match res {
        Some((s1, resp)) => match resp.packet {
            Some(p) => p is Data,
            None => false,
        },
        None => false,
    }
}

/// The whole decision function: what any connection state does with
/// any event.  `None` marks the driver contract violations: an event
/// fed to a terminated connection, or a timeout before anything was
/// sent.
pub open spec fn step(pre: ConnectionView, event: EventView<PacketView>) -> Option<
    (ConnectionView, ResponseView<PacketView>),
> {
    match pre {
        ConnectionView::Dead => None,
        ConnectionView::WaitingForInitialPacket { files, root } => step_initial(
            files,
            root,
            event,
        ),
        ConnectionView::AcknowledgingOptions {
            contents,
            timeout_events,
            acknowledged_options,
            block_size,
        } => step_ackopts(contents, timeout_events, acknowledged_options, block_size, event),
        ConnectionView::ReadingFile {
            contents,
            last_acked_block,
            timeout_events,
            last_was_final,
            block_size,
        } => step_reading(
            contents,
            last_acked_block,
            timeout_events,
            last_was_final,
            block_size,
            event,
        ),
    }
}


/// The range of every block size this machine accepts.
pub proof fn lemma_accepted_block_size_range(opts: Seq<OptionView>)
    ensures
        match accepted_block_size(opts) {
            Some(v) => BLKSIZE_MIN <= v <= BLKSIZE_MAX,
            None => true,
        },
    decreases opts.len(),
{
    if opts.len() > 0 {
        lemma_accepted_block_size_range(opts.skip(1));
    }
}

/// Takes the state out of a connection, leaving it terminated.
fn take_state<FS: Filesystem>(c: &mut Connection<FS>) -> (r: Connection<FS>)
    ensures
        r == *old(c),
        (*final(c)) is Dead,
{
    let mut tmp = Connection::Dead;
    core::mem::swap(c, &mut tmp);
    tmp
}

/// Copies an option list.
fn clone_options(v: &Vec<RequestOption>) -> (r: Vec<RequestOption>)
    ensures
        opts_view(r@) == opts_view(v@),
{
    proof {
        lemma_opts_view_index(v@);
    }
    let mut out: Vec<RequestOption> = Vec::new();
    let n = v.len();
    let mut i: usize = 0;
    proof {
        assert(opts_view(out@) =~= opts_view(v@.subrange(0, 0)));
    }
    while i < n
        invariant
            i <= n,
            n == v@.len(),
            forall|k: int| 0 <= k < n ==> opts_view(v@)[k] == v@[k]@,
            opts_view(out@) == opts_view(v@.subrange(0, i as int)),
        decreases n - i,
    {
        let ghost pre = out@;
        let name = clone_bytes(&v[i].name);
        let value = clone_bytes(&v[i].value);
        out.push(RequestOption { name, value });
        proof {
            assert(out@.drop_last() =~= pre);
            assert(v@.subrange(0, i + 1).drop_last() =~= v@.subrange(0, i as int));
            assert(v@.subrange(0, i + 1).last() == v@[i as int]);
            assert(out@.last()@ == v@[i as int]@);
        }
        i += 1;
    }
    proof {
        assert(v@.subrange(0, n as int) =~= v@);
    }
    out
}

/// Picks from the client's proposed options those the server accepts.
fn accept_options(options: &Vec<RequestOption>) -> (r: AcceptedOptions)
    ensures
        r.block_size == accepted_block_size(opts_view(options@)),
{
    proof {
        lemma_opts_view_index(options@);
    }
    let ghost full = opts_view(options@);
    let blk = blksize_vec();
    let n = options.len();
    let mut i: usize = 0;
    proof {
        assert(full.skip(0) =~= full);
    }
    while i < n
        invariant
            i <= n,
            n == options@.len(),
            full == opts_view(options@),
            full.len() == n,
            forall|k: int| 0 <= k < n ==> full[k] == options@[k]@,
            accepted_block_size(full) == accepted_block_size(full.skip(i as int)),
            blk@ == blksize_bytes(),
        decreases n - i,
    {
        proof {
            assert(full.skip(i as int)[0] == full[i as int]);
            assert(full.skip(i as int).skip(1) =~= full.skip(i + 1));
        }
        let o = &options[i];
        if eq_ignore_case(o.name.as_slice(), blk.as_slice()) {
            match parse_u16(o.value.as_slice()) {
                Some(v) => {
                    if BLKSIZE_MIN <= v && v <= BLKSIZE_MAX {
                        return AcceptedOptions { block_size: Some(v) };
                    }
                },
                None => {},
            }
        }
        i += 1;
    }
    proof {
        assert(full.skip(n as int) =~= Seq::<OptionView>::empty());
    }
    AcceptedOptions { block_size: None }
}

impl AcceptedOptions {
    /// The option list an OACK acknowledges for these options.
    fn to_option_vec(self) -> (r: Vec<RequestOption>)
        ensures
            opts_view(r@) == acked_options(self.block_size),
    {
        let mut res: Vec<RequestOption> = Vec::new();
        proof {
            assert(opts_view(res@) =~= Seq::<OptionView>::empty());
        }
        match self.block_size {
            Some(v) => {
                let name = blksize_vec();
                let value = render_u16(v);
                let ghost pre = res@;
                res.push(RequestOption { name, value });
                proof {
                    assert(res@.drop_last() =~= pre);
                    assert(opts_view(res@) =~= acked_options(self.block_size));
                }
            },
            None => {},
        }
        res
    }
}

/// The wire number of the block after `prev` acknowledged blocks.
fn next_wire_block(prev: u64) -> (r: u16)
    ensures
        r == wire_block(prev as int + 1),
{
    let rem = (prev % 0x10000) as u32;
    let wire = ((rem + 1) % 0x10000) as u16;
    proof {
        vstd::arithmetic::div_mod::lemma_add_mod_noop(prev as int, 1, 0x10000);
        assert((prev as int % 0x10000 + 1int % 0x10000) % 0x10000 == (prev as int + 1) % 0x10000);
    }
    wire
}

impl<FS: Filesystem> Connection<FS> {
    /// A fresh connection that serves `filesystem`, with request paths
    /// resolved against `root`.
    pub fn new_with_filesystem(filesystem: FS, root: Vec<u8>) -> (r: Self)
        requires
            forall|p: Seq<u8>|
                filesystem.files().dom().contains(p) ==> (#[trigger] filesystem.files()[p]).len()
                    <= usize::MAX as int,
        ensures
            r@ == (ConnectionView::WaitingForInitialPacket {
                files: filesystem.files(),
                root: root@,
            }),
            wf_state(r@),
    {
        Connection::WaitingForInitialPacket { filesystem, root }
    }

    /// Drops the connection without sending an error.
    fn drop_connection() -> (r: (Self, Response<Packet>))
        ensures
            r.0@ == ConnectionView::Dead,
            r.1@ == silent_close(),
    {
        (
            Connection::Dead,
            Response { packet: None, next_status: ConnectionStatus::Terminated },
        )
    }

    /// Drops the connection, sending a final error packet.
    fn drop_connection_with_error(error_code: u16, error_msg: Vec<u8>) -> (r: (
        Self,
        Response<Packet>,
    ))
        ensures
            r.0@ == ConnectionView::Dead,
            r.1@ == error_close(error_code, error_msg@),
    {
        (
            Connection::Dead,
            Response {
                packet: Some(Packet::Error { error_code, error_msg }),
                next_status: ConnectionStatus::Terminated,
            },
        )
    }

    /// Reads the payload of the block after `prev_acked` acknowledged
    /// blocks.
    fn read_block(file: &FS::File, prev_acked: u64, block_size: u16) -> (r: Result<
        Vec<u8>,
        FsError,
    >)
        requires
            file.contents().len() <= usize::MAX as int,
            prev_acked * block_size <= file.contents().len(),
        ensures
            match r {
                Ok(d) => d@ == block_payload(
                    file.contents(),
                    prev_acked + 1,
                    block_size as int,
                ),
                Err(_) => true,
            },
    {
        let offset: u64 = prev_acked * (block_size as u64);
        let mut buf: Vec<u8> = vec![0u8; block_size as usize];
        proof {
            assert(buf@.len() == block_size as int);
        }
        let n = match file.read(offset, &mut buf) {
            Ok(n) => n,
            Err(e) => {
                return Err(e);
            },
        };
        buf.truncate(n);
        proof {
            assert(buf@ =~= block_payload(file.contents(), prev_acked + 1, block_size as int));
        }
        Ok(buf)
    }

    /// Sends the block after `prev_acked` acknowledged blocks and
    /// enters (or stays in) the reading state.
    fn send_block(file: FS::File, prev_acked: u64, timeouts: u32, block_size: u16) -> (r: Result<
        (Self, Response<Packet>),
        FsError,
    >)
        requires
            block_size >= 1,
            file.contents().len() <= usize::MAX as int,
            prev_acked * block_size <= file.contents().len(),
        ensures
            (match r {
                Ok(sr) => {
                    let data = block_payload(file.contents(), prev_acked + 1, block_size as int);
                    &&& sr.0@ == (ConnectionView::ReadingFile {
                        contents: file.contents(),
                        last_acked_block: prev_acked,
                        timeout_events: timeouts,
                        last_was_final: data.len() < block_size,
                        block_size,
                    })
                    &&& sr.1@ == (ResponseView {
                        packet: Some(
                            PacketView::Data { block: wire_block(prev_acked + 1), data },
                        ),
                        next_status: waiting(),
                    })
                    &&& wf_state(sr.0@)
                },
                Err(_) => true,
            }),
    {
        let data = match Self::read_block(&file, prev_acked, block_size) {
            Ok(d) => d,
            Err(e) => {
                return Err(e);
            },
        };
        let last_was_final = data.len() < block_size as usize;
        let wire = next_wire_block(prev_acked);
        proof {
            let c = file.contents();
            let bsz = block_size as int;
            let p = prev_acked as int;
            assert(p * bsz + bsz == (p + 1) * bsz) by (nonlinear_arith);
            if !last_was_final {
                assert(data@.len() == bsz);
                assert((p + 1) * bsz <= c.len());
            }
        }
        Ok(
            (
                Connection::ReadingFile {
                    file,
                    last_acked_block: prev_acked,
                    timeout_events: timeouts,
                    last_was_final,
                    block_size,
                },
                Response {
                    packet: Some(Packet::Data { block: wire, data }),
                    next_status: ConnectionStatus::WaitingForPacket(DEFAULT_TFTP_TIMEOUT_MS),
                },
            ),
        )
    }

    /// Ignores a stale or duplicate packet and keeps waiting.
    fn ignore_packet(
        file: FS::File,
        block: u64,
        timeouts: u32,
        last_was_final: bool,
        block_size: u16,
    ) -> (r: (Self, Response<Packet>))
        ensures
            r.0@ == (ConnectionView::ReadingFile {
                contents: file.contents(),
                last_acked_block: block,
                timeout_events: timeouts,
                last_was_final,
                block_size,
            }),
            r.1@ == (ResponseView::<PacketView> { packet: None, next_status: waiting() }),
    {
        (
            Connection::ReadingFile {
                file,
                last_acked_block: block,
                timeout_events: timeouts,
                last_was_final,
                block_size,
            },
            Response {
                packet: None,
                next_status: ConnectionStatus::WaitingForPacket(DEFAULT_TFTP_TIMEOUT_MS),
            },
        )
    }

    /// Resends the option acknowledgement and keeps waiting for its
    /// ACK.
    fn acknowledge_options(
        file: FS::File,
        acknowledged_options: Vec<RequestOption>,
        timeout_events: u32,
        block_size: u16,
    ) -> (r: (Self, Response<Packet>))
        ensures
            r.0@ == (ConnectionView::AcknowledgingOptions {
                contents: file.contents(),
                timeout_events,
                acknowledged_options: opts_view(acknowledged_options@),
                block_size,
            }),
            r.1@ == (ResponseView {
                packet: Some(PacketView::OAck { options: opts_view(acknowledged_options@) }),
                next_status: waiting(),
            }),
    {
        let packet_options = clone_options(&acknowledged_options);
        (
            Connection::AcknowledgingOptions {
                file,
                timeout_events,
                acknowledged_options,
                block_size,
            },
            Response {
                packet: Some(Packet::OAck { options: packet_options }),
                next_status: ConnectionStatus::WaitingForPacket(DEFAULT_TFTP_TIMEOUT_MS),
            },
        )
    }

    /// Opens the requested file and starts the transfer, or closes
    /// the connection with an error.
    fn handle_initial_read(
        filesystem: FS,
        root: Vec<u8>,
        path: &Vec<u8>,
        accepted_options: AcceptedOptions,
    ) -> (r: Result<(Self, Response<Packet>), FsError>)
        requires
            accepted_options.block_size matches Some(v) ==> BLKSIZE_MIN <= v <= BLKSIZE_MAX,
        ensures
            (match r {
                Ok(sr) => initial_read(
                    filesystem.files(),
                    root@,
                    path@,
                    accepted_options.block_size,
                ) == (sr.0@, sr.1@) && wf_state(sr.0@),
                Err(_) => true,
            }),
            !emits_data(
                Some(initial_read(filesystem.files(), root@, path@, accepted_options.block_size)),
            ) ==> r is Ok,
    {
        let block_size = match accepted_options.block_size {
            Some(v) => v,
            None => DEFAULT_TFTP_BLKSIZE,
        };
        match normalize(path) {
            None => Ok(
                Self::drop_connection_with_error(ERROR_UNDEFINED, msg_normalize_failed_vec()),
            ),
            Some(rel) => {
                let full = join_path_exec(&root, &rel);
                match filesystem.open(&full) {
                    Err(_) => Ok(
                        Self::drop_connection_with_error(ERROR_UNDEFINED, msg_open_failed_vec()),
                    ),
                    Ok(file) => {
                        let opts_vec = accepted_options.to_option_vec();
                        proof {
                            lemma_opts_view_index(opts_vec@);
                        }
                        if opts_vec.len() == 0 {
                            match Self::send_block(file, 0, 0, block_size) {
                                Ok(sr) => Ok(sr),
                                Err(e) => Err(e),
                            }
                        } else {
                            Ok(Self::acknowledge_options(file, opts_vec, 0, block_size))
                        }
                    },
                }
            },
        }
    }

    /// Handles the first event of a connection.
    fn handle_initial_event(filesystem: FS, root: Vec<u8>, event: Event<Packet>) -> (r: Result<
        (Self, Response<Packet>),
        FsError,
    >)
        requires
            step_initial(filesystem.files(), root@, event@) is Some,
        ensures
            (match r {
                Ok(sr) => step_initial(filesystem.files(), root@, event@) == Some((sr.0@, sr.1@))
                    && wf_state(sr.0@),
                Err(_) => true,
            }),
            !emits_data(step_initial(filesystem.files(), root@, event@)) ==> r is Ok,
    {
        match event {
            Event::Timeout => {
                proof {
                    assert(false);
                }
                Err(FsError { message: Vec::new() })
            },
            Event::PacketReceived(p) => match p {
                Packet::Rrq { filename, mode: _, options } => {
                    let accepted = accept_options(&options);
                    proof {
                        lemma_accepted_block_size_range(opts_view(options@));
                    }
                    Self::handle_initial_read(filesystem, root, &filename, accepted)
                },
                Packet::Wrq { filename: _, mode: _, options: _ } => Ok(
                    Self::drop_connection_with_error(
                        ERROR_ACCESS_VIOLATION,
                        msg_write_denied_vec(),
                    ),
                ),
                _ => Ok(
                    Self::drop_connection_with_error(
                        ERROR_ILLEGAL_OPERATION,
                        msg_bad_initial_vec(),
                    ),
                ),
            },
        }
    }

    /// Handles an event while the option acknowledgement awaits its
    /// ACK.
    fn handle_option_acknowledgement(
        file: FS::File,
        timeout_events: u32,
        acknowledged_options: Vec<RequestOption>,
        block_size: u16,
        event: Event<Packet>,
    ) -> (r: Result<(Self, Response<Packet>), FsError>)
        requires
            block_size >= 1,
            file.contents().len() <= usize::MAX as int,
        ensures
            (match r {
                Ok(sr) => step_ackopts(
                    file.contents(),
                    timeout_events,
                    opts_view(acknowledged_options@),
                    block_size,
                    event@,
                ) == Some((sr.0@, sr.1@)) && wf_state(sr.0@),
                Err(_) => true,
            }),
            !emits_data(
                step_ackopts(
                    file.contents(),
                    timeout_events,
                    opts_view(acknowledged_options@),
                    block_size,
                    event@,
                ),
            ) ==> r is Ok,
    {
        match event {
            Event::PacketReceived(p) => match p {
                Packet::Ack { block } => {
                    if block == 0 {
                        match Self::send_block(file, 0, 0, block_size) {
                            Ok(sr) => Ok(sr),
                            Err(e) => Err(e),
                        }
                    } else {
                        Ok(
                            Self::drop_connection_with_error(
                                ERROR_ILLEGAL_OPERATION,
                                msg_expected_ack0_vec(),
                            ),
                        )
                    }
                },
                _ => Ok(
                    Self::drop_connection_with_error(
                        ERROR_ILLEGAL_OPERATION,
                        msg_expected_ack0_vec(),
                    ),
                ),
            },
            Event::Timeout => {
                if timeout_events >= MAX_RETRANSMISSIONS {
                    Ok(Self::drop_connection())
                } else {
                    Ok(
                        Self::acknowledge_options(
                            file,
                            acknowledged_options,
                            timeout_events + 1,
                            block_size,
                        ),
                    )
                }
            },
        }
    }

    /// Handles an event while file contents are being sent.
    fn handle_reading_file_event(
        file: FS::File,
        last_acked_block: u64,
        timeout_events: u32,
        last_was_final: bool,
        block_size: u16,
        event: Event<Packet>,
    ) -> (r: Result<(Self, Response<Packet>), FsError>)
        requires
            block_size >= 1,
            file.contents().len() <= usize::MAX as int,
            last_acked_block * block_size <= file.contents().len(),
            !last_was_final ==> (last_acked_block + 1) * block_size <= file.contents().len(),
        ensures
            (match r {
                Ok(sr) => step_reading(
                    file.contents(),
                    last_acked_block,
                    timeout_events,
                    last_was_final,
                    block_size,
                    event@,
                ) == Some((sr.0@, sr.1@)) && wf_state(sr.0@),
                Err(_) => true,
            }),
            !emits_data(
                step_reading(
                    file.contents(),
                    last_acked_block,
                    timeout_events,
                    last_was_final,
                    block_size,
                    event@,
                ),
            ) ==> r is Ok,
    {
        match event {
            Event::PacketReceived(p) => match p {
                Packet::Ack { block } => {
                    let expected = next_wire_block(last_acked_block);
                    if block == expected {
                        if last_was_final {
                            Ok(Self::drop_connection())
                        } else {
                            proof {
                                let bsz = block_size as int;
                                let n = last_acked_block as int;
                                assert(n + 1 <= (n + 1) * bsz) by (nonlinear_arith)
                                    requires
                                        bsz >= 1,
                                        n >= 0,
                                ;
                            }
                            let next = last_acked_block + 1;
                            match Self::send_block(file, next, 0, block_size) {
                                Ok(sr) => Ok(sr),
                                Err(e) => Err(e),
                            }
                        }
                    } else {
                        Ok(
                            Self::ignore_packet(
                                file,
                                last_acked_block,
                                timeout_events,
                                last_was_final,
                                block_size,
                            ),
                        )
                    }
                },
                Packet::Error { error_code: _, error_msg: _ } => Ok(Self::drop_connection()),
                _ => Ok(
                    Self::drop_connection_with_error(
                        ERROR_ILLEGAL_OPERATION,
                        msg_unexpected_packet_vec(),
                    ),
                ),
            },
            Event::Timeout => {
                if timeout_events >= MAX_RETRANSMISSIONS {
                    Ok(Self::drop_connection())
                } else {
                    match Self::send_block(
                        file,
                        last_acked_block,
                        timeout_events + 1,
                        block_size,
                    ) {
                        Ok(sr) => Ok(sr),
                        Err(e) => Err(e),
                    }
                }
            },
        }
    }

    /// Feeds one event into the state machine.  The new state and the
    /// response are exactly what [`step`] says; a failed file read
    /// terminates the connection instead.
    pub fn handle_event(&mut self, event: Event<Packet>) -> (r: Result<Response<Packet>, FsError>)
        requires
            wf_state(old(self)@),
            step(old(self)@, event@) is Some,
        ensures
            (match r {
                Ok(resp) => step(old(self)@, event@) == Some((final(self)@, resp@)) && wf_state(
                    final(self)@,
                ),
                Err(_) => final(self)@ is Dead,
            }),
            !emits_data(step(old(self)@, event@)) ==> r is Ok,
    {
        let cur = take_state(self);
        match cur {
            Connection::Dead => {
                proof {
                    assert(false);
                }
                Err(FsError { message: Vec::new() })
            },
            Connection::WaitingForInitialPacket { filesystem, root } => {
                match Self::handle_initial_event(filesystem, root, event) {
                    Ok(sr) => {
                        let (st, resp) = sr;
                        *self = st;
                        Ok(resp)
                    },
                    Err(e) => Err(e),
                }
            },
            Connection::AcknowledgingOptions {
                file,
                timeout_events,
                acknowledged_options,
                block_size,
            } => {
                match Self::handle_option_acknowledgement(
                    file,
                    timeout_events,
                    acknowledged_options,
                    block_size,
                    event,
                ) {
                    Ok(sr) => {
                        let (st, resp) = sr;
                        *self = st;
                        Ok(resp)
                    },
                    Err(e) => Err(e),
                }
            },
            Connection::ReadingFile {
                file,
                last_acked_block,
                timeout_events,
                last_was_final,
                block_size,
            } => {
                match Self::handle_reading_file_event(
                    file,
                    last_acked_block,
                    timeout_events,
                    last_was_final,
                    block_size,
                    event,
                ) {
                    Ok(sr) => {
                        let (st, resp) = sr;
                        *self = st;
                        Ok(resp)
                    },
                    Err(e) => Err(e),
                }
            },
        }
    }
}

impl<FS: Filesystem> SimpleUdpProtocol for Connection<FS> {
    type Packet = Packet;

    type Error = FsError;

    open spec fn event_allowed(&self, event: &Event<Packet>) -> bool {
        wf_state(self@) && step(self@, event@) is Some
    }

    fn handle_event(&mut self, event: Event<Packet>) -> Result<Response<Packet>, FsError> {
        Connection::handle_event(self, event)
    }
}


/// The final state and the collected responses of feeding a sequence
/// of events, one by one; `None` when some event hits a state that
/// must not receive it.
pub open spec fn run(s: ConnectionView, evs: Seq<EventView<PacketView>>) -> Option<
    (ConnectionView, Seq<ResponseView<PacketView>>),
>
    decreases evs.len(),
{
    if evs.len() == 0 {
        Some((s, seq![]))
    } else {
        match step(s, evs[0]) {
            None => None,
            Some((s1, r1)) => match run(s1, evs.skip(1)) {
                None => None,
                Some((sf, rs)) => Some((sf, seq![r1] + rs)),
            },
        }
    }
}

/// Whether every event of a sequence is a timeout.
pub open spec fn all_timeouts(evs: Seq<EventView<PacketView>>) -> bool {
    forall|i: int| 0 <= i < evs.len() ==> (#[trigger] evs[i]) is Timeout
}

/// Whether no event of a sequence is a timeout.
pub open spec fn no_timeouts(evs: Seq<EventView<PacketView>>) -> bool {
    forall|i: int| 0 <= i < evs.len() ==> !((#[trigger] evs[i]) is Timeout)
}

/// How many timeout events a waiting state has already counted.
pub open spec fn state_timeouts(s: ConnectionView) -> int {
    match s {
        ConnectionView::AcknowledgingOptions { timeout_events, .. } => timeout_events as int,
        ConnectionView::ReadingFile { timeout_events, .. } => timeout_events as int,
        _ => 0,
    }
}

/// How many further timeout events a state can absorb before it goes
/// dead.
pub open spec fn timeout_budget(t: int) -> int {
    if t >= MAX_RETRANSMISSIONS as int {
        1
    } else {
        MAX_RETRANSMISSIONS + 1 - t
    }
}

/// Retransmission bound: once a transfer waits for an acknowledgement,
/// a defined run of nothing but timeout events can deliver at most
/// `MAX_RETRANSMISSIONS + 1` of them; the last one closes the
/// connection silently, and no further event can be fed.
pub proof fn lemma_retransmission_bound(s: ConnectionView, evs: Seq<EventView<PacketView>>)
    requires
        s is AcknowledgingOptions || s is ReadingFile,
        all_timeouts(evs),
        run(s, evs) is Some,
    ensures
        evs.len() <= timeout_budget(state_timeouts(s)),
        evs.len() <= MAX_RETRANSMISSIONS + 1,
    decreases evs.len(),
{
    if evs.len() > 0 {
        assert(evs[0] is Timeout);
        match step(s, evs[0]) {
            None => {},
            Some((s1, r1)) => {
                assert forall|i: int| 0 <= i < evs.skip(1).len() implies (#[trigger] evs.skip(
                    1,
                )[i]) is Timeout by {
                    assert(evs.skip(1)[i] == evs[i + 1]);
                }
                if s1 is Dead {
                    if evs.skip(1).len() > 0 {
                        assert(step(s1, evs.skip(1)[0]) is None);
                        assert(run(s1, evs.skip(1)) is None);
                    }
                    assert(evs.len() == 1);
                } else {
                    lemma_retransmission_bound(s1, evs.skip(1));
                }
            },
        }
    }
}

/// Idempotent retransmission: when two timeout events arrive in a row
/// during a transfer, the two retransmitted DATA packets are
/// identical, block number and payload alike.
pub proof fn lemma_idempotent_retransmission(s: ConnectionView)
    requires
        s is ReadingFile,
        state_timeouts(s) + 1 < MAX_RETRANSMISSIONS as int,
    ensures
        step(s, EventView::<PacketView>::Timeout) is Some,
        step(s, EventView::<PacketView>::Timeout) matches Some((s1, r1)) ==> {
            &&& step(s1, EventView::<PacketView>::Timeout) is Some
            &&& (step(s1, EventView::<PacketView>::Timeout) matches Some((s2, r2)) ==> {
                &&& r1.packet is Some
                &&& r1.packet == r2.packet
                &&& r1.packet matches Some(p) && p is Data
            })
        },
{
}

/// Stepping preserves well-formedness: every state a transition
/// reaches from a well-formed state is well-formed again.
pub proof fn lemma_step_preserves_wf(s: ConnectionView, ev: EventView<PacketView>)
    requires
        wf_state(s),
        step(s, ev) is Some,
    ensures
        step(s, ev) matches Some((s1, r1)) ==> wf_state(s1),
{
    match s {
        ConnectionView::Dead => {},
        ConnectionView::WaitingForInitialPacket { files, root } => {
            match ev {
                EventView::PacketReceived(p) => match p {
                    PacketView::Rrq { filename, mode, options } => {
                        lemma_accepted_block_size_range(options);
                        let bsz = chosen_block_size(accepted_block_size(options)) as int;
                        assert(bsz >= 1);
                        assert(1int * bsz == bsz) by (nonlinear_arith);
                        assert(0int * bsz == 0) by (nonlinear_arith);
                        match spec_normalize(filename) {
                            Some(rel) => {
                                let full = join_path(root, rel);
                                if files.dom().contains(full) {
                                    assert(files[full].len() <= usize::MAX as int);
                                }
                            },
                            None => {},
                        }
                    },
                    _ => {},
                },
                _ => {},
            }
        },
        ConnectionView::AcknowledgingOptions { block_size, .. } => {
            let bsz = block_size as int;
            assert(1int * bsz == bsz) by (nonlinear_arith);
            assert(0int * bsz == 0) by (nonlinear_arith);
        },
        ConnectionView::ReadingFile { last_acked_block, last_was_final, block_size, .. } => {
            let bsz = block_size as int;
            let n = last_acked_block as int;
            assert(n * bsz + bsz == (n + 1) * bsz) by (nonlinear_arith);
            assert((n + 1) * bsz + bsz == (n + 2) * bsz) by (nonlinear_arith);
            if !last_was_final {
                assert(n + 1 <= (n + 1) * bsz) by (nonlinear_arith)
                    requires
                        bsz >= 1,
                        n >= 0,
                ;
            }
        },
    }
}

/// The DATA packets among a sequence of responses, in order.
pub open spec fn data_packets(rs: Seq<ResponseView<PacketView>>) -> Seq<PacketView>
    decreases rs.len(),
{
    if rs.len() == 0 {
        seq![]
    } else {
        let tail = data_packets(rs.skip(1));
        match rs[0].packet {
            Some(p) => if p is Data {
                seq![p] + tail
            } else {
                tail
            },
            None => tail,
        }
    }
}

/// The number of the next file block a state will emit as DATA.
pub open spec fn next_data_block(s: ConnectionView) -> int {
    match s {
        ConnectionView::WaitingForInitialPacket { .. } => 1,
        ConnectionView::AcknowledgingOptions { .. } => 1,
        ConnectionView::ReadingFile { last_acked_block, .. } => last_acked_block + 2,
        ConnectionView::Dead => 0,
    }
}

/// Block monotonicity: in any defined, timeout-free run, the emitted
/// DATA packets carry strictly consecutive wire block numbers, one
/// packet per block, counting up from the first block still owed;
/// from a fresh connection that is block one.
pub proof fn lemma_block_monotonic(s: ConnectionView, evs: Seq<EventView<PacketView>>)
    requires
        wf_state(s),
        no_timeouts(evs),
        run(s, evs) is Some,
    ensures
        run(s, evs) matches Some((sf, rs)) ==> forall|k: int|
            0 <= k < data_packets(rs).len() ==> {
                &&& (#[trigger] data_packets(rs)[k]) matches PacketView::Data { block, .. }
                &&& block == wire_block(next_data_block(s) + k)
            },
    decreases evs.len(),
{
    if evs.len() > 0 {
        assert(!(evs[0] is Timeout));
        match step(s, evs[0]) {
            None => {},
            Some((s1, r1)) => {
                assert forall|i: int| 0 <= i < evs.skip(1).len() implies !((#[trigger] evs.skip(
                    1,
                )[i]) is Timeout) by {
                    assert(evs.skip(1)[i] == evs[i + 1]);
                }
                match run(s1, evs.skip(1)) {
                    None => {},
                    Some((sf, rs_tail)) => {
                        lemma_step_preserves_wf(s, evs[0]);
                        lemma_block_monotonic(s1, evs.skip(1));
                        let rs = seq![r1] + rs_tail;
                        assert(rs.skip(1) =~= rs_tail);
                        assert(rs[0] == r1);
                        if s1 is Dead {
                            if evs.skip(1).len() > 0 {
                                assert(step(s1, evs.skip(1)[0]) is None);
                            }
                            assert(evs.skip(1).len() == 0);
                            assert(rs_tail.len() == 0);
                            assert(data_packets(rs_tail).len() == 0);
                        } else {
                            match s {
                                ConnectionView::ReadingFile {
                                    last_acked_block,
                                    last_was_final,
                                    block_size,
                                    ..
                                } => {
                                    if !last_was_final {
                                        let bsz = block_size as int;
                                        let n = last_acked_block as int;
                                        assert(n + 1 <= (n + 1) * bsz) by (nonlinear_arith)
                                            requires
                                                bsz >= 1,
                                                n >= 0,
                                        ;
                                    }
                                },
                                _ => {},
                            }
                            assert(next_data_block(s1) == next_data_block(s) + (
                            if r1.packet matches Some(p) && p is Data {
                                1int
                            } else {
                                0int
                            }));
                        }
                        assert forall|k: int|
                            0 <= k < data_packets(rs).len() implies {
                            &&& (#[trigger] data_packets(rs)[k]) matches PacketView::Data {
                                block,
                                ..
                            }
                            &&& block == wire_block(next_data_block(s) + k)
                        } by {
                            match r1.packet {
                                Some(p) => {
                                    if p is Data {
                                        assert(data_packets(rs) == seq![p] + data_packets(
                                            rs_tail,
                                        ));
                                        if k > 0 {
                                            assert(data_packets(rs)[k] == data_packets(
                                                rs_tail,
                                            )[k - 1]);
                                        }
                                    } else {
                                        assert(data_packets(rs) == data_packets(rs_tail));
                                    }
                                },
                                None => {
                                    assert(data_packets(rs) == data_packets(rs_tail));
                                },
                            }
                        }
                    },
                }
            },
        }
    }
}

} // verus!
