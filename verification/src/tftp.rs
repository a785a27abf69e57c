//! TFTP packet types and their wire-format codec.
//!
//! See RFC 1350 for the basic protocol and RFC 2347 for the option
//! extension.  A packet starts with a big-endian 16-bit opcode; strings
//! are NUL-terminated; request and option-acknowledgement packets carry
//! a list of (name, value) option pairs that runs to the end of the
//! datagram.
//!
//! Filenames are kept as raw bytes to tolerate the non-UTF-8 paths that
//! real systems produce; error messages and option strings must be
//! valid UTF-8 and are rejected otherwise.

use crate::bytes::{
    find_nul, find_nul_exec, is_utf8, lemma_find_nul_bounds, lemma_find_nul_found, lower_seq,
    validate_utf8, NUL,
};
use vstd::prelude::*;

verus! {

/// TFTP error code: undefined or generic failure.
pub const ERROR_UNDEFINED: u16 = 0;

/// TFTP error code: file not found.
pub const ERROR_FILE_NOT_FOUND: u16 = 1;

/// TFTP error code: access violation.
pub const ERROR_ACCESS_VIOLATION: u16 = 2;

/// TFTP error code: disk full or allocation exceeded.
pub const ERROR_DISK_FULL: u16 = 3;

/// TFTP error code: illegal TFTP operation.
pub const ERROR_ILLEGAL_OPERATION: u16 = 4;

/// TFTP error code: unknown transfer ID.
pub const ERROR_UNKNOWN_TRANSFER_ID: u16 = 5;

/// TFTP error code: file already exists.
pub const ERROR_FILE_EXISTS: u16 = 6;

/// TFTP error code: no such user.
pub const ERROR_NO_SUCH_USER: u16 = 7;

/// TFTP error code: invalid option value (RFC 2347).
pub const ERROR_INVALID_OPTION: u16 = 8;

/// Opcode of a read request.
pub const OP_RRQ: u16 = 1;

/// Opcode of a write request.
pub const OP_WRQ: u16 = 2;

/// Opcode of a data packet.
pub const OP_DATA: u16 = 3;

/// Opcode of an acknowledgement.
pub const OP_ACK: u16 = 4;

/// Opcode of an error packet.
pub const OP_ERROR: u16 = 5;

/// Opcode of an option acknowledgement.
pub const OP_OACK: u16 = 6;

/// The transfer mode named in a request.  `Netascii` is parsed but the
/// server treats it exactly like `Octet`.
#[derive(Debug, Clone, Copy, PartialEq, Eq)]
pub enum RequestMode {
    Octet,
    Netascii,
}

/// One (name, value) option pair from a request or an option
/// acknowledgement, in wire order.
#[derive(Debug, Clone, PartialEq, Eq)]
pub struct RequestOption {
    pub name: Vec<u8>,
    pub value: Vec<u8>,
}

/// The mathematical value of a `RequestOption`.
pub struct OptionView {
    pub name: Seq<u8>,
    pub value: Seq<u8>,
}

impl View for RequestOption {
    type V = OptionView;

    open spec fn view(&self) -> OptionView {
        OptionView { name: self.name@, value: self.value@ }
    }
}

/// A TFTP protocol packet.
#[derive(Debug, Clone, PartialEq, Eq)]
pub enum Packet {
    Rrq { filename: Vec<u8>, mode: RequestMode, options: Vec<RequestOption> },
    Wrq { filename: Vec<u8>, mode: RequestMode, options: Vec<RequestOption> },
    Data { block: u16, data: Vec<u8> },
    Ack { block: u16 },
    Error { error_code: u16, error_msg: Vec<u8> },
    OAck { options: Vec<RequestOption> },
}

/// The mathematical value of a `Packet`.
pub enum PacketView {
    Rrq { filename: Seq<u8>, mode: RequestMode, options: Seq<OptionView> },
    Wrq { filename: Seq<u8>, mode: RequestMode, options: Seq<OptionView> },
    Data { block: u16, data: Seq<u8> },
    Ack { block: u16 },
    Error { error_code: u16, error_msg: Seq<u8> },
    OAck { options: Seq<OptionView> },
}

/// The views of a sequence of option pairs.
pub open spec fn opts_view(v: Seq<RequestOption>) -> Seq<OptionView>
    decreases v.len(),
{
    if v.len() == 0 {
        seq![]
    } else {
        opts_view(v.drop_last()).push(v.last()@)
    }
}

pub proof fn lemma_opts_view_index(v: Seq<RequestOption>)
    ensures
        opts_view(v).len() == v.len(),
        forall|i: int| 0 <= i < v.len() ==> opts_view(v)[i] == v[i]@,
    decreases v.len(),
{
    if v.len() > 0 {
        lemma_opts_view_index(v.drop_last());
        assert forall|i: int| 0 <= i < v.len() implies opts_view(v)[i] == v[i]@ by {
            if i < v.len() - 1 {
                assert(v.drop_last()[i] == v[i]);
            }
        }
    }
}

impl View for Packet {
    type V = PacketView;

    open spec fn view(&self) -> PacketView {
        match self {
            Packet::Rrq { filename, mode, options } => PacketView::Rrq {
                filename: filename@,
                mode: *mode,
                options: opts_view(options@),
            },
            Packet::Wrq { filename, mode, options } => PacketView::Wrq {
                filename: filename@,
                mode: *mode,
                options: opts_view(options@),
            },
            Packet::Data { block, data } => PacketView::Data { block: *block, data: data@ },
            Packet::Ack { block } => PacketView::Ack { block: *block },
            Packet::Error { error_code, error_msg } => PacketView::Error {
                error_code: *error_code,
                error_msg: error_msg@,
            },
            Packet::OAck { options } => PacketView::OAck { options: opts_view(options@) },
        }
    }
}

/// The reason a datagram was rejected by the decoder.
#[derive(Debug, Clone, Copy, PartialEq, Eq)]
pub enum ParseError {
    /// The datagram does not frame as any TFTP packet: a bad opcode, a
    /// missing string terminator, or a truncated fixed layout.
    UnrecognizedPacket,
    /// A string that must be UTF-8 (an error message, an option name or
    /// value) is not.
    InvalidString,
    /// The transfer mode of a request is neither `octet` nor
    /// `netascii`.
    InvalidMode,
}

impl ParseError {
    /// A human-readable description of the error.
    pub fn describe(&self) -> (r: &'static str)
        ensures
            self is UnrecognizedPacket ==> r@ == "Failed to parse a packet"@,
            self is InvalidString ==> r@ == "The packet contained a string that is not valid UTF-8"@,
            self is InvalidMode ==> r@ == "Failed to parse the packet because of an invalid mode string"@,
    {
        match self {
            ParseError::UnrecognizedPacket => "Failed to parse a packet",
            ParseError::InvalidString => "The packet contained a string that is not valid UTF-8",
            ParseError::InvalidMode => "Failed to parse the packet because of an invalid mode string",
        }
    }
}

/// The two bytes of a 16-bit value in network byte order.
pub open spec fn enc_u16(x: u16) -> Seq<u8> {
    seq![(x / 256) as u8, (x % 256) as u8]
}

/// The 16-bit value read from two bytes in network byte order.
pub open spec fn dec_u16(hi: u8, lo: u8) -> u16 {
    (hi * 256 + lo) as u16
}

/// The bytes of the mode string `octet`.
pub open spec fn octet_bytes() -> Seq<u8> {
    seq![111u8, 99u8, 116u8, 101u8, 116u8]
}

/// The bytes of the mode string `netascii`.
pub open spec fn netascii_bytes() -> Seq<u8> {
    seq![110u8, 101u8, 116u8, 97u8, 115u8, 99u8, 105u8, 105u8]
}

/// The bytes a mode is encoded as.
pub open spec fn mode_bytes(m: RequestMode) -> Seq<u8> {
    match m {
        RequestMode::Octet => octet_bytes(),
        RequestMode::Netascii => netascii_bytes(),
    }
}

/// The mode a string names, compared ASCII-case-insensitively.
pub open spec fn spec_mode(s: Seq<u8>) -> Option<RequestMode> {
    if lower_seq(s) == netascii_bytes() {
        Some(RequestMode::Netascii)
    } else if lower_seq(s) == octet_bytes() {
        Some(RequestMode::Octet)
    } else {
        None
    }
}

/// The encoding of an option list: each name and value NUL-terminated,
/// in order.
pub open spec fn enc_options(opts: Seq<OptionView>) -> Seq<u8>
    decreases opts.len(),
{
    if opts.len() == 0 {
        seq![]
    } else {
        opts[0].name + seq![NUL] + opts[0].value + seq![NUL] + enc_options(opts.skip(1))
    }
}

/// The exact bytes a packet is encoded as.
pub open spec fn spec_encode(p: PacketView) -> Seq<u8> {
    match p {
        PacketView::Rrq { filename, mode, options } => enc_u16(OP_RRQ) + filename + seq![NUL]
            + mode_bytes(mode) + seq![NUL] + enc_options(options),
        PacketView::Wrq { filename, mode, options } => enc_u16(OP_WRQ) + filename + seq![NUL]
            + mode_bytes(mode) + seq![NUL] + enc_options(options),
        PacketView::Data { block, data } => enc_u16(OP_DATA) + enc_u16(block) + data,
        PacketView::Ack { block } => enc_u16(OP_ACK) + enc_u16(block),
        PacketView::Error { error_code, error_msg } => enc_u16(OP_ERROR) + enc_u16(error_code)
            + error_msg + seq![NUL],
        PacketView::OAck { options } => enc_u16(OP_OACK) + enc_options(options),
    }
}

/// Whether no byte of `s` is a NUL, so that `s` can stand before a
/// NUL terminator on the wire.
pub open spec fn nul_free(s: Seq<u8>) -> bool {
    forall|i: int| 0 <= i < s.len() ==> s[i] != NUL
}

/// Whether an option survives the wire: its name and value carry no
/// NUL and are well-formed UTF-8.
pub open spec fn option_wf(o: OptionView) -> bool {
    nul_free(o.name) && nul_free(o.value) && option_utf8(o)
}

/// Whether every option of a list survives the wire.
pub open spec fn wf_options(opts: Seq<OptionView>) -> bool {
    forall|k: int| 0 <= k < opts.len() ==> option_wf(#[trigger] opts[k])
}

/// The packets that can be carried on the wire at all: strings that
/// stand before a NUL terminator carry no NUL themselves, and strings
/// the decoder checks for UTF-8 are UTF-8.
pub open spec fn wf_packet(p: PacketView) -> bool {
    match p {
        PacketView::Rrq { filename, mode, options } => nul_free(filename) && wf_options(options),
        PacketView::Wrq { filename, mode, options } => nul_free(filename) && wf_options(options),
        PacketView::Data { block, data } => true,
        PacketView::Ack { block } => true,
        PacketView::Error { error_code, error_msg } => nul_free(error_msg) && is_utf8(error_msg),
        PacketView::OAck { options } => wf_options(options),
    }
}

/// Lower-casing fixes the mode strings, so a mode round-trips through
/// its encoding; and neither mode string contains a NUL.
proof fn lemma_mode_round_trip(m: RequestMode)
    ensures
        spec_mode(mode_bytes(m)) == Some(m),
        nul_free(mode_bytes(m)),
{
    assert(lower_seq(octet_bytes()) =~= octet_bytes());
    assert(lower_seq(netascii_bytes()) =~= netascii_bytes());
    assert(octet_bytes().len() != netascii_bytes().len());
}

/// Parsing the encoding of a NUL-free option list from `pos` recovers
/// exactly that list.
proof fn lemma_parse_options_enc(s: Seq<u8>, pos: int, opts: Seq<OptionView>)
    requires
        0 <= pos <= s.len(),
        s.subrange(pos, s.len() as int) == enc_options(opts),
        forall|k: int| 0 <= k < opts.len() ==> option_wf(#[trigger] opts[k]),
    ensures
        parse_options_from(s, pos) == Some(opts),
    decreases opts.len(),
{
    let tail = s.subrange(pos, s.len() as int);
    if opts.len() == 0 {
        assert(tail.len() == 0);
        assert(Seq::<OptionView>::empty() =~= opts);
    } else {
        assert(option_wf(opts[0]));
        let name = opts[0].name;
        let value = opts[0].value;
        let nl = name.len() as int;
        let vl = value.len() as int;
        let rest_enc = enc_options(opts.skip(1));
        assert(enc_options(opts) == name + seq![NUL] + value + seq![NUL] + rest_enc);
        let i = pos + nl;
        let j = i + 1 + vl;
        assert(s.len() >= j + 1);
        assert forall|k: int| pos <= k < i implies s[k] != NUL by {
            assert(s[k] == tail[k - pos]);
            assert(tail[k - pos] == name[k - pos]);
        }
        assert(s[i] == tail[nl]);
        assert(tail[nl] == NUL);
        lemma_find_nul_found(s, pos, i);
        assert forall|k: int| i + 1 <= k < j implies s[k] != NUL by {
            assert(s[k] == tail[k - pos]);
            assert(tail[k - pos] == value[k - pos - nl - 1]);
        }
        assert(s[j] == tail[j - pos]);
        assert(tail[j - pos] == NUL);
        lemma_find_nul_found(s, i + 1, j);
        assert forall|k: int| 0 <= k < opts.skip(1).len() implies option_wf(
            #[trigger] opts.skip(1)[k],
        ) by {
            assert(opts.skip(1)[k] == opts[k + 1]);
        }
        assert(s.subrange(j + 1, s.len() as int) =~= rest_enc) by {
            assert forall|m: int| 0 <= m < s.len() - j - 1 implies s.subrange(
                j + 1,
                s.len() as int,
            )[m] == rest_enc[m] by {
                assert(s[j + 1 + m] == tail[j + 1 + m - pos]);
                assert(tail[j + 1 + m - pos] == rest_enc[m]);
            }
        }
        lemma_parse_options_enc(s, j + 1, opts.skip(1));
        assert(s.subrange(pos, i) =~= name);
        assert forall|m: int| 0 <= m < vl implies s.subrange(i + 1, j)[m] == value[m] by {
            assert(s[i + 1 + m] == tail[i + 1 + m - pos]);
            assert(tail[nl + 1 + m] == value[m]);
        }
        assert(s.subrange(i + 1, j) =~= value);
        assert(seq![opts[0]] + opts.skip(1) =~= opts);
    }
}

/// Decoding the encoding of a well-formed request recovers it.
proof fn lemma_request_round_trip(p: PacketView)
    requires
        wf_packet(p),
        p is Rrq || p is Wrq,
    ensures
        spec_decode(spec_encode(p)) == Ok::<PacketView, ParseError>(p),
{
    let s = spec_encode(p);
    let read = p is Rrq;
    let filename = if read {
        p->Rrq_filename
    } else {
        p->Wrq_filename
    };
    let mode = if read {
        p->Rrq_mode
    } else {
        p->Wrq_mode
    };
    let options = if read {
        p->Rrq_options
    } else {
        p->Wrq_options
    };
    let mb = mode_bytes(mode);
    let flen = filename.len() as int;
    let mlen = mb.len() as int;
    let i = 2 + flen;
    let j = i + 1 + mlen;
    let opts_enc = enc_options(options);
    assert(s == enc_u16(if read {
        OP_RRQ
    } else {
        OP_WRQ
    }) + filename + seq![NUL] + mb + seq![NUL] + opts_enc);
    assert(s.len() == j + 1 + opts_enc.len());
    assert(s[0] == 0 && s[1] == (if read {
        1u8
    } else {
        2u8
    }));
    lemma_mode_round_trip(mode);
    assert forall|k: int| 2 <= k < i implies s[k] != NUL by {
        assert(s[k] == filename[k - 2]);
    }
    assert(s[i] == NUL);
    lemma_find_nul_found(s, 2, i);
    assert forall|k: int| i + 1 <= k < j implies s[k] != NUL by {
        assert(s[k] == mb[k - i - 1]);
    }
    assert(s[j] == NUL);
    lemma_find_nul_found(s, i + 1, j);
    assert(s.subrange(i + 1, j) =~= mb);
    assert(s.subrange(j + 1, s.len() as int) =~= opts_enc);
    lemma_parse_options_enc(s, j + 1, options);
    assert(s.subrange(2, i) =~= filename);
}

/// Codec round trip: decoding the encoding of any well-formed packet
/// yields an equal packet.
pub proof fn lemma_codec_round_trip(p: PacketView)
    requires
        wf_packet(p),
    ensures
        spec_decode(spec_encode(p)) == Ok::<PacketView, ParseError>(p),
{
    let s = spec_encode(p);
    match p {
        PacketView::Rrq { filename, mode, options } => {
            lemma_request_round_trip(p);
        },
        PacketView::Wrq { filename, mode, options } => {
            lemma_request_round_trip(p);
        },
        PacketView::Data { block, data } => {
            assert(s == enc_u16(OP_DATA) + enc_u16(block) + data);
            assert(s[0] == 0 && s[1] == 3);
            assert(s[2] == (block / 256) as u8 && s[3] == (block % 256) as u8);
            assert(dec_u16(s[2], s[3]) == block);
            assert(s.skip(4) =~= data);
        },
        PacketView::Ack { block } => {
            assert(s == enc_u16(OP_ACK) + enc_u16(block));
            assert(s[0] == 0 && s[1] == 4);
            assert(dec_u16(s[2], s[3]) == block);
        },
        PacketView::Error { error_code, error_msg } => {
            assert(s == enc_u16(OP_ERROR) + enc_u16(error_code) + error_msg + seq![NUL]);
            assert(s[0] == 0 && s[1] == 5);
            let i = 4 + error_msg.len() as int;
            assert forall|k: int| 4 <= k < i implies s[k] != NUL by {
                assert(s[k] == error_msg[k - 4]);
            }
            assert(s[i] == NUL);
            lemma_find_nul_found(s, 4, i);
            assert(s.subrange(4, i) =~= error_msg);
            assert(dec_u16(s[2], s[3]) == error_code);
        },
        PacketView::OAck { options } => {
            assert(s == enc_u16(OP_OACK) + enc_options(options));
            assert(s[0] == 0 && s[1] == 6);
            assert(s.subrange(2, s.len() as int) =~= enc_options(options));
            lemma_parse_options_enc(s, 2, options);
        },
    }
}

/// Appends a 16-bit value in network byte order.
fn push_u16_be(out: &mut Vec<u8>, x: u16)
    ensures
        final(out)@ == old(out)@ + enc_u16(x),
{
    out.push((x / 256) as u8);
    out.push((x % 256) as u8);
    proof {
        assert(out@ =~= old(out)@ + enc_u16(x));
    }
}

/// Appends a byte string.
fn push_slice(out: &mut Vec<u8>, s: &[u8])
    ensures
        final(out)@ == old(out)@ + s@,
{
    out.extend_from_slice(s);
    proof {
        assert(out@ =~= old(out)@ + s@);
    }
}

/// Appends the encoding of a transfer mode.
fn push_mode(out: &mut Vec<u8>, m: RequestMode)
    ensures
        final(out)@ == old(out)@ + mode_bytes(m),
{
    match m {
        RequestMode::Octet => {
            // "octet"
            out.push(111);
            out.push(99);
            out.push(116);
            out.push(101);
            out.push(116);
        },
        RequestMode::Netascii => {
            // "netascii"
            out.push(110);
            out.push(101);
            out.push(116);
            out.push(97);
            out.push(115);
            out.push(99);
            out.push(105);
            out.push(105);
        },
    }
    proof {
        assert(out@ =~= old(out)@ + mode_bytes(m));
    }
}

/// Appends the encoding of an option list.
fn push_options(out: &mut Vec<u8>, opts: &Vec<RequestOption>)
    ensures
        final(out)@ == old(out)@ + enc_options(opts_view(opts@)),
{
    let ghost ov = opts_view(opts@);
    proof {
        lemma_opts_view_index(opts@);
        assert(ov.skip(0) =~= ov);
    }
    let n = opts.len();
    let mut k: usize = 0;
    while k < n
        invariant
            k <= n,
            n == opts@.len(),
            ov == opts_view(opts@),
            ov.len() == n,
            forall|i: int| 0 <= i < n ==> ov[i] == opts@[i]@,
            old(out)@ + enc_options(ov) == out@ + enc_options(ov.skip(k as int)),
        decreases n - k,
    {
        let ghost rest = ov.skip(k as int);
        proof {
            assert(rest[0] == ov[k as int]);
            assert(rest.skip(1) =~= ov.skip(k + 1));
            assert(enc_options(rest) == rest[0].name + seq![NUL] + rest[0].value + seq![NUL]
                + enc_options(rest.skip(1)));
        }
        let opt = &opts[k];
        push_slice(out, opt.name.as_slice());
        out.push(NUL);
        push_slice(out, opt.value.as_slice());
        out.push(NUL);
        proof {
            assert(old(out)@ + enc_options(ov) =~= out@ + enc_options(ov.skip(k + 1)));
        }
        k += 1;
    }
    proof {
        assert(ov.skip(n as int) =~= Seq::<OptionView>::empty());
        assert(enc_options(Seq::<OptionView>::empty()) == Seq::<u8>::empty());
        assert(old(out)@ + enc_options(ov) =~= out@);
    }
}

/// The raw option pairs framed from `pos` to the end of the datagram:
/// alternating NUL-terminated names and values.  `None` means a string
/// misses its terminator.
pub open spec fn parse_options_from(s: Seq<u8>, pos: int) -> Option<Seq<OptionView>>
    decreases s.len() - pos,
    via parse_options_from_dec
{
    if pos < 0 {
        None
    } else if pos >= s.len() {
        Some(seq![])
    } else {
        match find_nul(s, pos) {
            None => None,
            Some(i) => match find_nul(s, i + 1) {
                None => None,
                Some(j) => match parse_options_from(s, j + 1) {
                    None => None,
                    Some(tail) => Some(
                        seq![
                            OptionView { name: s.subrange(pos, i), value: s.subrange(i + 1, j) },
                        ] + tail,
                    ),
                },
            },
        }
    }
}

#[via_fn]
proof fn parse_options_from_dec(s: Seq<u8>, pos: int) {
    if 0 <= pos < s.len() {
        lemma_find_nul_bounds(s, pos);
        if let Some(i) = find_nul(s, pos) {
            lemma_find_nul_bounds(s, i + 1);
        }
    }
}

/// Whether an option's name and value are well-formed UTF-8.
pub open spec fn option_utf8(o: OptionView) -> bool {
    is_utf8(o.name) && is_utf8(o.value)
}

/// Whether every option name and value is well-formed UTF-8.
pub open spec fn all_options_utf8(opts: Seq<OptionView>) -> bool {
    forall|k: int| 0 <= k < opts.len() ==> option_utf8(#[trigger] opts[k])
}

/// What decoding a read or write request yields.
pub open spec fn spec_decode_request(s: Seq<u8>, read: bool) -> Result<PacketView, ParseError> {
    match find_nul(s, 2) {
        None => Err(ParseError::UnrecognizedPacket),
        Some(i) => match find_nul(s, i + 1) {
            None => Err(ParseError::UnrecognizedPacket),
            Some(j) => match parse_options_from(s, j + 1) {
                None => Err(ParseError::UnrecognizedPacket),
                Some(opts) => match spec_mode(s.subrange(i + 1, j)) {
                    None => Err(ParseError::InvalidMode),
                    Some(m) => if all_options_utf8(opts) {
                        if read {
                            Ok(
                                PacketView::Rrq {
                                    filename: s.subrange(2, i),
                                    mode: m,
                                    options: opts,
                                },
                            )
                        } else {
                            Ok(
                                PacketView::Wrq {
                                    filename: s.subrange(2, i),
                                    mode: m,
                                    options: opts,
                                },
                            )
                        }
                    } else {
                        Err(ParseError::InvalidString)
                    },
                },
            },
        },
    }
}

/// What decoding an error packet yields.
pub open spec fn spec_decode_error(s: Seq<u8>) -> Result<PacketView, ParseError> {
    if s.len() < 4 {
        Err(ParseError::UnrecognizedPacket)
    } else {
        match find_nul(s, 4) {
            None => Err(ParseError::UnrecognizedPacket),
            Some(i) => if is_utf8(s.subrange(4, i)) {
                Ok(
                    PacketView::Error {
                        error_code: dec_u16(s[2], s[3]),
                        error_msg: s.subrange(4, i),
                    },
                )
            } else {
                Err(ParseError::InvalidString)
            },
        }
    }
}

/// What decoding a datagram yields: the packet, or the reason it is
/// rejected.  Trailing bytes after a fixed-layout packet are ignored;
/// the payload of a data packet and the option lists run to the end of
/// the datagram.
pub open spec fn spec_decode(s: Seq<u8>) -> Result<PacketView, ParseError> {
    if s.len() < 2 {
        Err(ParseError::UnrecognizedPacket)
    } else {
        let op = s[0] * 256 + s[1];
        if op == OP_RRQ {
            spec_decode_request(s, true)
        } else if op == OP_WRQ {
            spec_decode_request(s, false)
        } else if op == OP_DATA {
            if s.len() < 4 {
                Err(ParseError::UnrecognizedPacket)
            } else {
                Ok(PacketView::Data { block: dec_u16(s[2], s[3]), data: s.skip(4) })
            }
        } else if op == OP_ACK {
            if s.len() < 4 {
                Err(ParseError::UnrecognizedPacket)
            } else {
                Ok(PacketView::Ack { block: dec_u16(s[2], s[3]) })
            }
        } else if op == OP_ERROR {
            spec_decode_error(s)
        } else if op == OP_OACK {
            match parse_options_from(s, 2) {
                None => Err(ParseError::UnrecognizedPacket),
                Some(opts) => if all_options_utf8(opts) {
                    Ok(PacketView::OAck { options: opts })
                } else {
                    Err(ParseError::InvalidString)
                },
            }
        } else {
            Err(ParseError::UnrecognizedPacket)
        }
    }
}

/// The bytes of the mode string `octet`.
fn octet_vec() -> (r: Vec<u8>)
    ensures
        r@ == octet_bytes(),
{
    let mut v: Vec<u8> = Vec::new();
    // "octet"
    v.push(111);
    v.push(99);
    v.push(116);
    v.push(101);
    v.push(116);
    proof {
        assert(v@ =~= octet_bytes());
    }
    v
}

/// The bytes of the mode string `netascii`.
fn netascii_vec() -> (r: Vec<u8>)
    ensures
        r@ == netascii_bytes(),
{
    let mut v: Vec<u8> = Vec::new();
    // "netascii"
    v.push(110);
    v.push(101);
    v.push(116);
    v.push(97);
    v.push(115);
    v.push(99);
    v.push(105);
    v.push(105);
    proof {
        assert(v@ =~= netascii_bytes());
    }
    v
}

/// Recognizes a transfer mode string, ASCII-case-insensitively.
fn parse_mode_exec(s: &[u8]) -> (r: Option<RequestMode>)
    ensures
        r == spec_mode(s@),
{
    let netascii = netascii_vec();
    if crate::bytes::eq_ignore_case(s, netascii.as_slice()) {
        return Some(RequestMode::Netascii);
    }
    let octet = octet_vec();
    if crate::bytes::eq_ignore_case(s, octet.as_slice()) {
        return Some(RequestMode::Octet);
    }
    None
}

/// Concatenation of a parsed prefix with the rest of an option parse.
spec fn opts_join(pre: Seq<OptionView>, rest: Option<Seq<OptionView>>) -> Option<
    Seq<OptionView>,
> {
    match rest {
        None => None,
        Some(t) => Some(pre + t),
    }
}

/// Frames the option pairs from `start` to the end of the datagram.
fn parse_options_exec(s: &[u8], start: usize) -> (r: Option<Vec<RequestOption>>)
    requires
        start <= s@.len(),
    ensures
        match (r, parse_options_from(s@, start as int)) {
            (Some(v), Some(ov)) => opts_view(v@) == ov,
            (None, None) => true,
            _ => false,
        },
{
    let mut acc: Vec<RequestOption> = Vec::new();
    let mut pos: usize = start;
    proof {
        assert(opts_view(acc@) =~= Seq::<OptionView>::empty());
    }
    while pos < s.len()
        invariant
            start <= pos <= s@.len(),
            parse_options_from(s@, start as int) == opts_join(
                opts_view(acc@),
                parse_options_from(s@, pos as int),
            ),
        decreases s@.len() - pos,
    {
        let i = match find_nul_exec(s, pos) {
            Some(i) => i,
            None => {
                return None;
            },
        };
        let j = match find_nul_exec(s, i + 1) {
            Some(j) => j,
            None => {
                return None;
            },
        };
        let name = vstd::slice::slice_to_vec(vstd::slice::slice_subrange(s, pos, i));
        let value = vstd::slice::slice_to_vec(vstd::slice::slice_subrange(s, i + 1, j));
        let ghost pv = OptionView { name: s@.subrange(pos as int, i as int), value: s@.subrange(
            i + 1,
            j as int,
        ) };
        let ghost acc_pre = acc@;
        acc.push(RequestOption { name, value });
        proof {
            assert(acc@.drop_last() =~= acc_pre);
            assert(acc@.last()@ == pv);
            assert(opts_view(acc@) == opts_view(acc_pre).push(pv));
            match parse_options_from(s@, j + 1) {
                None => {},
                Some(t) => {
                    assert(opts_view(acc_pre).push(pv) + t =~= opts_view(acc_pre) + (seq![pv]
                        + t));
                },
            }
        }
        pos = j + 1;
    }
    proof {
        assert(parse_options_from(s@, pos as int) == Some(Seq::<OptionView>::empty()));
        assert(opts_view(acc@) + Seq::<OptionView>::empty() =~= opts_view(acc@));
    }
    Some(acc)
}

/// Whether every option's name and value is well-formed UTF-8.
fn options_utf8_exec(opts: &Vec<RequestOption>) -> (r: bool)
    ensures
        r == all_options_utf8(opts_view(opts@)),
{
    proof {
        lemma_opts_view_index(opts@);
    }
    let n = opts.len();
    let mut k: usize = 0;
    while k < n
        invariant
            k <= n,
            n == opts@.len(),
            opts_view(opts@).len() == n,
            forall|i: int| 0 <= i < n ==> opts_view(opts@)[i] == opts@[i]@,
            forall|i: int| 0 <= i < k ==> option_utf8(#[trigger] opts_view(opts@)[i]),
        decreases n - k,
    {
        if !validate_utf8(opts[k].name.as_slice()) {
            proof {
                assert(!option_utf8(opts_view(opts@)[k as int]));
            }
            return false;
        }
        if !validate_utf8(opts[k].value.as_slice()) {
            proof {
                assert(!option_utf8(opts_view(opts@)[k as int]));
            }
            return false;
        }
        k += 1;
    }
    true
}

/// Decodes a read or write request after its opcode.
fn decode_request(input: &[u8], read: bool) -> (r: Result<Packet, ParseError>)
    requires
        input@.len() >= 2,
    ensures
        (match (r, spec_decode_request(input@, read)) {
            (Ok(p), Ok(pv)) => p@ == pv,
            (Err(e1), Err(e2)) => e1 == e2,
            _ => false,
        }),
{
    let n = input.len();
    let i = match find_nul_exec(input, 2) {
        Some(i) => i,
        None => {
            return Err(ParseError::UnrecognizedPacket);
        },
    };
    let j = match find_nul_exec(input, i + 1) {
        Some(j) => j,
        None => {
            return Err(ParseError::UnrecognizedPacket);
        },
    };
    let options = match parse_options_exec(input, j + 1) {
        Some(v) => v,
        None => {
            return Err(ParseError::UnrecognizedPacket);
        },
    };
    let mode = match parse_mode_exec(vstd::slice::slice_subrange(input, i + 1, j)) {
        Some(m) => m,
        None => {
            return Err(ParseError::InvalidMode);
        },
    };
    if !options_utf8_exec(&options) {
        return Err(ParseError::InvalidString);
    }
    let filename = vstd::slice::slice_to_vec(vstd::slice::slice_subrange(input, 2, i));
    if read {
        Ok(Packet::Rrq { filename, mode, options })
    } else {
        Ok(Packet::Wrq { filename, mode, options })
    }
}

/// Decodes an error packet after its opcode.
fn decode_error(input: &[u8]) -> (r: Result<Packet, ParseError>)
    requires
        input@.len() >= 4,
    ensures
        (match (r, spec_decode_error(input@)) {
            (Ok(p), Ok(pv)) => p@ == pv,
            (Err(e1), Err(e2)) => e1 == e2,
            _ => false,
        }),
{
    let b2 = *vstd::slice::slice_index_get(input, 2);
    let b3 = *vstd::slice::slice_index_get(input, 3);
    let error_code: u16 = (b2 as u16) * 256 + (b3 as u16);
    let i = match find_nul_exec(input, 4) {
        Some(i) => i,
        None => {
            return Err(ParseError::UnrecognizedPacket);
        },
    };
    let error_msg = vstd::slice::slice_to_vec(vstd::slice::slice_subrange(input, 4, i));
    if !validate_utf8(error_msg.as_slice()) {
        return Err(ParseError::InvalidString);
    }
    Ok(Packet::Error { error_code, error_msg })
}

impl Packet {
    /// Decodes one datagram, or says why it is rejected.
    pub fn try_from(input: &[u8]) -> (r: Result<Packet, ParseError>)
        ensures
            (match (r, spec_decode(input@)) {
                (Ok(p), Ok(pv)) => p@ == pv,
                (Err(e1), Err(e2)) => e1 == e2,
                _ => false,
            }),
    {
        if input.len() < 2 {
            return Err(ParseError::UnrecognizedPacket);
        }
        let hi = *vstd::slice::slice_index_get(input, 0);
        let lo = *vstd::slice::slice_index_get(input, 1);
        let op: u16 = (hi as u16) * 256 + (lo as u16);
        if op == OP_RRQ {
            decode_request(input, true)
        } else if op == OP_WRQ {
            decode_request(input, false)
        } else if op == OP_DATA {
            if input.len() < 4 {
                return Err(ParseError::UnrecognizedPacket);
            }
            let b2 = *vstd::slice::slice_index_get(input, 2);
            let b3 = *vstd::slice::slice_index_get(input, 3);
            let block: u16 = (b2 as u16) * 256 + (b3 as u16);
            let data = vstd::slice::slice_to_vec(
                vstd::slice::slice_subrange(input, 4, input.len()),
            );
            proof {
                assert(data@ =~= input@.skip(4));
            }
            Ok(Packet::Data { block, data })
        } else if op == OP_ACK {
            if input.len() < 4 {
                return Err(ParseError::UnrecognizedPacket);
            }
            let b2 = *vstd::slice::slice_index_get(input, 2);
            let b3 = *vstd::slice::slice_index_get(input, 3);
            let block: u16 = (b2 as u16) * 256 + (b3 as u16);
            Ok(Packet::Ack { block })
        } else if op == OP_ERROR {
            if input.len() < 4 {
                return Err(ParseError::UnrecognizedPacket);
            }
            decode_error(input)
        } else if op == OP_OACK {
            let options = match parse_options_exec(input, 2) {
                Some(v) => v,
                None => {
                    return Err(ParseError::UnrecognizedPacket);
                },
            };
            if !options_utf8_exec(&options) {
                return Err(ParseError::InvalidString);
            }
            Ok(Packet::OAck { options })
        } else {
            Err(ParseError::UnrecognizedPacket)
        }
    }

    /// Encodes the packet into the exact bytes sent on the wire.
    pub fn to_vec(&self) -> (r: Vec<u8>)
        ensures
            r@ == spec_encode(self@),
    {
        let mut out: Vec<u8> = Vec::new();
        match self {
            Packet::Rrq { filename, mode, options } => {
                push_u16_be(&mut out, OP_RRQ);
                push_slice(&mut out, filename.as_slice());
                out.push(NUL);
                push_mode(&mut out, *mode);
                out.push(NUL);
                push_options(&mut out, options);
                proof {
                    assert(out@ =~= spec_encode(self@));
                }
            },
            Packet::Wrq { filename, mode, options } => {
                push_u16_be(&mut out, OP_WRQ);
                push_slice(&mut out, filename.as_slice());
                out.push(NUL);
                push_mode(&mut out, *mode);
                out.push(NUL);
                push_options(&mut out, options);
                proof {
                    assert(out@ =~= spec_encode(self@));
                }
            },
            Packet::Data { block, data } => {
                push_u16_be(&mut out, OP_DATA);
                push_u16_be(&mut out, *block);
                push_slice(&mut out, data.as_slice());
                proof {
                    assert(out@ =~= spec_encode(self@));
                }
            },
            Packet::Ack { block } => {
                push_u16_be(&mut out, OP_ACK);
                push_u16_be(&mut out, *block);
                proof {
                    assert(out@ =~= spec_encode(self@));
                }
            },
            Packet::Error { error_code, error_msg } => {
                push_u16_be(&mut out, OP_ERROR);
                push_u16_be(&mut out, *error_code);
                push_slice(&mut out, error_msg.as_slice());
                out.push(NUL);
                proof {
                    assert(out@ =~= spec_encode(self@));
                }
            },
            Packet::OAck { options } => {
                push_u16_be(&mut out, OP_OACK);
                push_options(&mut out, options);
                proof {
                    assert(out@ =~= spec_encode(self@));
                }
            },
        }
        out
    }
}

} // verus!
