//! HID reports exchanged with the mouse microcontroller.
//!
//! A command report is `2`, a mode byte, four argument bytes (absent ones
//! are zero) and two zero bytes, optionally followed by a data buffer; a
//! report with data is padded with zero bytes to a multiple of 8 bytes.
use vstd::prelude::*;

verus! {

/// Mode that resets the device (sent when the handle is dropped).
pub const MODE_RESET: u8 = 1;

/// Mode that writes one sensor register.
pub const MODE_WRITE_PORT: u8 = 7;

/// Mode that reads a pixel burst from the sensor.
pub const MODE_SPEED_BURST: u8 = 12;

/// Mode that uploads the sensor firmware.
pub const MODE_UPLOAD: u8 = 15;

/// The sensor register that the firmware upload writes to.
pub const UPLOAD_PORT: u8 = 0x35;

/// Length of the reply to a register write.
pub const WRITE_PORT_REPLY_LEN: usize = 8;

/// Length of the reply to a pixel burst: an 8-byte header and the payload.
pub const SPEED_BURST_REPLY_LEN: usize = 2048;

/// Zero bytes that bring a length of `n` up to a multiple of 8.
pub open spec fn padding(n: nat) -> nat {
    ((8 - n % 8) % 8) as nat
}

/// `b` followed by the zero bytes that make its length a multiple of 8.
pub open spec fn pad_to_block(b: Seq<u8>) -> Seq<u8> {
    b + Seq::new(padding(b.len()), |i: int| 0u8)
}

/// The fixed part of a command report.
pub open spec fn report_header(mode: u8, args: Seq<Option<u8>>) -> Seq<u8> {
    seq![2u8, mode] + args.map_values(|a: Option<u8>| a.unwrap_or(0u8)) + seq![0u8, 0u8]
}

/// The bytes of a command report.
pub open spec fn report_bytes(mode: u8, args: Seq<Option<u8>>, sendbuf: Option<Seq<u8>>) -> Seq<
    u8,
> {
    match sendbuf {
        Some(b) => pad_to_block(report_header(mode, args) + b),
        None => report_header(mode, args),
    }
}

/// Padding only appends: all of `b`, in order, then zero bytes up to the
/// next multiple of 8, and no more.
pub proof fn lemma_pad_to_block_layout(b: Seq<u8>)
    ensures
        pad_to_block(b).len() == b.len() + (8 - b.len() % 8) % 8,
        pad_to_block(b).len() % 8 == 0,
        pad_to_block(b).subrange(0, b.len() as int) == b,
        forall|i: int| b.len() <= i < pad_to_block(b).len() ==> pad_to_block(b)[i] == 0,
{
    assert(pad_to_block(b).subrange(0, b.len() as int) =~= b);
}

/// A command report is laid out as `2`, the mode, the four argument bytes
/// (zero where absent), two zero bytes, then all of the data in order and
/// only zero bytes up to the next multiple of 8.
pub proof fn lemma_report_layout(mode: u8, args: Seq<Option<u8>>, sendbuf: Option<Seq<u8>>)
    requires
        args.len() == 4,
    ensures
        ({
            let r = report_bytes(mode, args, sendbuf);
            &&& r[0] == 2
            &&& r[1] == mode
            &&& forall|k: int|
                0 <= k < 4 ==> r[2 + k] == match #[trigger] args[k] {
                    Some(a) => a,
                    None => 0u8,
                }
            &&& r[6] == 0
            &&& r[7] == 0
            &&& match sendbuf {
                None => r.len() == 8,
                Some(b) => {
                    &&& r.len() == 8 + b.len() + (8 - b.len() % 8) % 8
                    &&& r.subrange(8, 8 + b.len() as int) == b
                    &&& forall|i: int| 8 + b.len() <= i < r.len() ==> r[i] == 0
                },
            }
        }),
{
    let h = report_header(mode, args);
    assert(h.len() == 8);
    assert forall|k: int| 0 <= k < 4 implies h[2 + k] == match #[trigger] args[k] {
        Some(a) => a,
        None => 0u8,
    } by {}
    match sendbuf {
        None => {},
        Some(b) => {
            lemma_pad_to_block_layout(h + b);
            let r = pad_to_block(h + b);
            assert(r.subrange(0, (h + b).len() as int) == h + b);
            assert forall|k: int| 0 <= k < 8 implies r[k] == h[k] by {
                assert(r.subrange(0, (h + b).len() as int)[k] == r[k]);
            }
            assert(r.subrange(8, 8 + b.len() as int) =~= b) by {
                assert forall|k: int| 0 <= k < b.len() implies r.subrange(8, 8 + b.len() as int)[k] == b[k] by {
                    assert(r.subrange(0, (h + b).len() as int)[8 + k] == r[8 + k]);
                }
            }
            assert((8 + b.len()) % 8 == b.len() % 8);
        },
    }
}

/// Appends zero bytes to `buf` until its length is a multiple of 8.
pub fn pad_to_blocks(buf: &mut Vec<u8>)
    requires
        old(buf)@.len() + 7 <= usize::MAX,
    ensures
        final(buf)@ == pad_to_block(old(buf)@),
        final(buf)@.len() % 8 == 0,
        final(buf)@.len() == old(buf)@.len() + (8 - old(buf)@.len() % 8) % 8,
        final(buf)@.subrange(0, old(buf)@.len() as int) == old(buf)@,
        forall|i: int| old(buf)@.len() <= i < final(buf)@.len() ==> final(buf)@[i] == 0,
{
    proof {
        lemma_pad_to_block_layout(buf@);
    }
    let ghost base = buf@;
    let ghost target = base.len() + padding(base.len());
    while buf.len() % 8 != 0
        invariant
            base.len() <= buf@.len() <= target,
            target == base.len() + padding(base.len()),
            target <= usize::MAX,
            buf@ == base + Seq::new((buf@.len() - base.len()) as nat, |i: int| 0u8),
            buf@.len() % 8 != 0 ==> buf@.len() < target,
        decreases target - buf@.len(),
    {
        let ghost before = buf@;
        buf.push(0);
        assert(buf@ =~= base + Seq::new((buf@.len() - base.len()) as nat, |i: int| 0u8)) by {
            assert(before =~= base + Seq::new((before.len() - base.len()) as nat, |i: int| 0u8));
        }
    }
    assert(buf@.len() == target);
}

/// What a command report holds: the mode, the four optional argument bytes
/// and the optional data.
pub type ReportView = (u8, Seq<Option<u8>>, Option<Seq<u8>>);

/// Report `v` with argument slots `args`.
pub open spec fn with_args(v: ReportView, args: Seq<Option<u8>>) -> ReportView {
    (v.0, args, v.2)
}

/// Report `v` carrying data `b`.
pub open spec fn with_sendbuf(v: ReportView, b: Seq<u8>) -> ReportView {
    (v.0, v.1, Some(b))
}

/// Setting the arguments and setting the data touch different parts of a
/// report, so the order in which they are set does not matter: the report,
/// and so its bytes, come out the same.
pub proof fn lemma_builders_commute(v: ReportView, args: Seq<Option<u8>>, b: Seq<u8>)
    ensures
        ({
            let x = with_sendbuf(with_args(v, args), b);
            let y = with_args(with_sendbuf(v, b), args);
            x == y && report_bytes(x.0, x.1, x.2) == report_bytes(y.0, y.1, y.2)
        }),
{
}

/// The arguments of a command report to the mouse microcontroller.
pub struct SetReportArgs<'a> {
    mode: u8,
    args: [Option<u8>; 4],
    sendbuf: Option<&'a [u8]>,
}

impl<'a> View for SetReportArgs<'a> {
    /// The mode, the four optional argument bytes and the optional data.
    type V = ReportView;

    closed spec fn view(&self) -> ReportView {
        (
            self.mode,
            self.args@,
            match self.sendbuf {
                Some(b) => Some(b@),
                None => None,
            },
        )
    }
}

impl<'a> SetReportArgs<'a> {
    /// Every report has exactly four argument slots.
    pub proof fn lemma_four_slots(&self)
        ensures
            self@.1.len() == 4,
            report_header(self@.0, self@.1).len() == 8,
    {
    }

    /// A report for `mode` with no arguments and no data.
    pub fn new(mode: u8) -> (r: Self)
        ensures
            r@ == (mode, seq![None::<u8>, None, None, None], None::<Seq<u8>>),
    {
        let r = SetReportArgs { mode, args: [None, None, None, None], sendbuf: None };
        assert(r.args@ =~= seq![None::<u8>, None, None, None]);
        r
    }

    /// The same report with one argument byte.
    pub fn args1(self, arg1: u8) -> (r: Self)
        ensures
            r@ == with_args(self@, seq![Some(arg1), None, None, None]),
            r@.0 == self@.0,
            r@.1 == seq![Some(arg1), None, None, None],
            r@.2 == self@.2,
    {
        let r = Self { args: [Some(arg1), None, None, None], ..self };
        assert(r.args@ =~= seq![Some(arg1), None, None, None]);
        r
    }

    /// The same report with two argument bytes.
    pub fn args2(self, arg1: u8, arg2: u8) -> (r: Self)
        ensures
            r@ == with_args(self@, seq![Some(arg1), Some(arg2), None, None]),
            r@.0 == self@.0,
            r@.1 == seq![Some(arg1), Some(arg2), None, None],
            r@.2 == self@.2,
    {
        let r = Self { args: [Some(arg1), Some(arg2), None, None], ..self };
        assert(r.args@ =~= seq![Some(arg1), Some(arg2), None, None]);
        r
    }

    /// The same report with three argument bytes.
    pub fn args3(self, arg1: u8, arg2: u8, arg3: u8) -> (r: Self)
        ensures
            r@ == with_args(self@, seq![Some(arg1), Some(arg2), Some(arg3), None]),
            r@.0 == self@.0,
            r@.1 == seq![Some(arg1), Some(arg2), Some(arg3), None],
            r@.2 == self@.2,
    {
        let r = Self { args: [Some(arg1), Some(arg2), Some(arg3), None], ..self };
        assert(r.args@ =~= seq![Some(arg1), Some(arg2), Some(arg3), None]);
        r
    }

    /// The same report with four argument bytes.
    pub fn args4(self, arg1: u8, arg2: u8, arg3: u8, arg4: u8) -> (r: Self)
        ensures
            r@ == with_args(self@, seq![Some(arg1), Some(arg2), Some(arg3), Some(arg4)]),
            r@.0 == self@.0,
            r@.1 == seq![Some(arg1), Some(arg2), Some(arg3), Some(arg4)],
            r@.2 == self@.2,
    {
        let r = Self { args: [Some(arg1), Some(arg2), Some(arg3), Some(arg4)], ..self };
        assert(r.args@ =~= seq![Some(arg1), Some(arg2), Some(arg3), Some(arg4)]);
        r
    }

    /// The same report carrying `buf` as its data.
    pub fn set_sendbuf(self, buf: &'a [u8]) -> (r: Self)
        ensures
            r@ == with_sendbuf(self@, buf@),
            r@.0 == self@.0,
            r@.1 == self@.1,
            r@.2 == Some(buf@),
    {
        SetReportArgs { sendbuf: Some(buf), ..self }
    }

    /// The bytes of the report, ready to send to the device.
    pub fn to_buf(&self) -> (r: Vec<u8>)
        requires
            match self@.2 {
                Some(b) => b.len() + 15 <= usize::MAX,
                None => true,
            },
        ensures
            r@ == report_bytes(self@.0, self@.1, self@.2),
            r@.len() % 8 == 0,
            r@.len() >= 8,
            r@.take(8) == report_header(self@.0, self@.1),
            r@[0] == 2,
            r@[1] == self@.0,
            forall|k: int|
                0 <= k < 4 ==> r@[2 + k] == match #[trigger] self@.1[k] {
                    Some(a) => a,
                    None => 0u8,
                },
            r@[6] == 0,
            r@[7] == 0,
            match self@.2 {
                None => r@.len() == 8,
                Some(b) => {
                    &&& r@.len() == 8 + b.len() + (8 - b.len() % 8) % 8
                    &&& r@.subrange(8, 8 + b.len() as int) == b
                    &&& forall|i: int| 8 + b.len() <= i < r@.len() ==> r@[i] == 0
                },
            },
    {
        proof {
            lemma_report_layout(self@.0, self@.1, self@.2);
        }
        let mut ret_buf: Vec<u8> = Vec::new();
        ret_buf.push(2u8);
        ret_buf.push(self.mode);
        let mut i: usize = 0;
        while i < 4
            invariant
                0 <= i <= 4,
                self.args@.len() == 4,
                ret_buf@ == seq![2u8, self.mode] + self.args@.take(i as int).map_values(
                    |a: Option<u8>| a.unwrap_or(0u8),
                ),
            decreases 4 - i,
        {
            let a = self.args[i].unwrap_or(0);
            assert(self.args@.take(i + 1).map_values(|a: Option<u8>| a.unwrap_or(0u8))
                =~= self.args@.take(i as int).map_values(|a: Option<u8>| a.unwrap_or(0u8)).push(a));
            ret_buf.push(a);
            i = i + 1;
        }
        assert(self.args@.take(4) =~= self.args@);
        ret_buf.push(0);
        ret_buf.push(0);
        assert(ret_buf@ =~= report_header(self.mode, self.args@));
        if let Some(buf) = self.sendbuf {
            let ghost head = ret_buf@;
            let mut j: usize = 0;
            while j < buf.len()
                invariant
                    0 <= j <= buf@.len(),
                    head.len() == 8,
                    ret_buf@ == head + buf@.take(j as int),
                decreases buf@.len() - j,
            {
                assert(head + buf@.take(j + 1) =~= (head + buf@.take(j as int)).push(buf@[j as int]));
                ret_buf.push(buf[j]);
                j = j + 1;
            }
            assert(buf@.take(buf@.len() as int) =~= buf@);
            pad_to_blocks(&mut ret_buf);
        }
        ret_buf
    }
}

/// The USB control transfer that carries a HID report.
pub struct ControlSetup {
    pub request_type: u8,
    pub request: u8,
    pub value: u16,
    pub index: u16,
}

/// The control transfer that sends report `report_id` (the report's first
/// byte) to interface `iface`: a class request to the interface,
/// SET_REPORT, with the feature report type in the high byte of the value.
pub fn set_report_setup(report_id: u8, iface: u8) -> (r: ControlSetup)
    ensures
        r.request_type == 0x21,
        r.request == 0x9,
        r.value == report_id + 0x300,
        r.index == iface,
{
    let value = (report_id as u16) | (3u16 << 8u16);
    assert(value == report_id + 0x300) by (bit_vector)
        requires
            value == (report_id as u16) | (3u16 << 8u16),
    ;
    ControlSetup { request_type: 0x21, request: 0x9, value, index: iface as u16 }
}

/// The control transfer that fetches report `report_id` (the first byte of
/// the buffer it is read into) from interface `iface`: GET_REPORT, with the
/// feature report type in the high byte of the value.
pub fn get_report_setup(report_id: u8, iface: u8) -> (r: ControlSetup)
    ensures
        r.request_type == 0xa1,
        r.request == 0x1,
        r.value == report_id + 0x300,
        r.index == iface,
{
    let value = (report_id as u16) | (3u16 << 8u16);
    assert(value == report_id + 0x300) by (bit_vector)
        requires
            value == (report_id as u16) | (3u16 << 8u16),
    ;
    ControlSetup { request_type: 0xa1, request: 0x1, value, index: iface as u16 }
}

/// The buffer a reply of `len` bytes is read into: report id 5, then zeros.
pub fn reply_buffer(len: usize) -> (r: Vec<u8>)
    requires
        len >= 1,
    ensures
        r@ == seq![5u8] + Seq::new((len - 1) as nat, |i: int| 0u8),
{
    let mut recv_buf: Vec<u8> = Vec::new();
    recv_buf.push(5);
    let mut i: usize = 1;
    while i < len
        invariant
            1 <= i <= len,
            recv_buf@ == seq![5u8] + Seq::new((i - 1) as nat, |j: int| 0u8),
        decreases len - i,
    {
        recv_buf.push(0);
        i = i + 1;
        assert(recv_buf@ =~= seq![5u8] + Seq::new((i - 1) as nat, |j: int| 0u8));
    }
    recv_buf
}

/// Why the sensor firmware cannot be uploaded.
#[derive(Debug, Clone, Copy, PartialEq, Eq)]
pub enum UploadError {
    /// The firmware, counted in 8-byte blocks, does not fit the one-byte
    /// block count of the upload report.
    TooManyBlocks,
}

/// The report that uploads the (already padded) sensor firmware `rom`: mode
/// 15 with the number of 8-byte blocks, the target register and two zero
/// address bytes as arguments, and the firmware as data. Fails when the
/// block count does not fit in a byte.
pub fn laser_upload_args<'a>(rom: &'a [u8]) -> (r: Result<SetReportArgs<'a>, UploadError>)
    ensures
        r is Ok <==> rom@.len() / 8 <= 255,
        r matches Ok(a) ==> a@ == (
            MODE_UPLOAD,
            seq![Some((rom@.len() / 8) as u8), Some(UPLOAD_PORT), Some(0u8), Some(0u8)],
            Some(rom@),
        ),
        r matches Err(e) ==> e == UploadError::TooManyBlocks,
        r matches Ok(a) ==> a@.0 == 15 && a@.1 == seq![
            Some((rom@.len() / 8) as u8),
            Some(0x35u8),
            Some(0u8),
            Some(0u8),
        ] && a@.2 == Some(rom@),
{
    let blocks = rom.len() / 8;
    if blocks > 255 {
        return Err(UploadError::TooManyBlocks);
    }
    let len8th = blocks as u8;
    Ok(SetReportArgs::new(MODE_UPLOAD).args4(len8th, UPLOAD_PORT, 0x00, 0x00).set_sendbuf(rom))
}

} // verus!
