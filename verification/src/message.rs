use vstd::prelude::*;
use crate::frame::Frame;
use crate::TEXT;

verus! {

/// The ghost image of a frame: what message assembly reads of it.
pub struct FrameView {
    pub fin: bool,
    pub opcode: u8,
    pub contents: Seq<u8>,
}

impl FrameView {
    /// Whether the opcode marks a control frame (close, ping or pong).
    pub open spec fn is_control(self) -> bool {
        0x8 <= self.opcode <= 0xA
    }
}

impl View for Frame {
    type V = FrameView;

    open spec fn view(&self) -> FrameView {
        FrameView { fin: self.header.fin, opcode: self.header.opcode, contents: self.contents@ }
    }
}

/// The ghost images of a sequence of frames.
pub open spec fn frame_views(frames: Seq<Frame>) -> Seq<FrameView> {
    frames.map_values(|f: Frame| f@)
}

/// The payloads of the frames, concatenated in order.
pub open spec fn spec_concat_payloads(frames: Seq<FrameView>) -> Seq<u8>
    decreases frames.len(),
{
    if frames.len() == 0 {
        Seq::empty()
    } else {
        spec_concat_payloads(frames.drop_last()) + frames.last().contents
    }
}

/// The ghost image of a message: its kind and its assembled payload.
pub struct MessageView {
    pub control: bool,
    pub msg_type: u8,
    pub contents: Option<Seq<u8>>,
}

/// One application-level message: either a control notification without
/// contents, or a data message holding the payload of one or more frames.
pub struct Message {
    pub control: bool,
    pub msg_type: u8,
    pub contents: Option<Vec<u8>>,
}

impl View for Message {
    type V = MessageView;

    open spec fn view(&self) -> MessageView {
        MessageView {
            control: self.control,
            msg_type: self.msg_type,
            contents: match self.contents {
                Some(c) => Some(c@),
                None => None,
            },
        }
    }
}

/// What `String::from_utf8_lossy` returns for these bytes: the text, with
/// every byte run that is not valid UTF-8 replaced.
pub uninterp spec fn utf8_lossy_of(bytes: Seq<u8>) -> Seq<char>;

/// Relies on `String::from_utf8_lossy`: the result is a function of the
/// bytes alone.
#[verifier::external_body]
pub(crate) fn utf8_lossy(bytes: &[u8]) -> (r: String)
    ensures
        r@ == utf8_lossy_of(bytes@),
{
    String::from_utf8_lossy(bytes).to_string()
}

impl Message {
    /// Wraps one final data frame as a complete message.
    pub fn from_frame(f: Frame) -> (r: Message)
        ensures
            r@ == (MessageView { control: false, msg_type: f.header.opcode, contents: Some(f.contents@) }),
    {
        Message { control: false, contents: Some(f.contents), msg_type: f.header.opcode }
    }

    /// Wraps a control frame as a control message, which carries no
    /// contents.
    pub fn from_control(f: Frame) -> (r: Message)
        ensures
            r@ == (MessageView { control: true, msg_type: f.header.opcode, contents: None }),
    {
        Message { control: true, msg_type: f.header.opcode, contents: None }
    }

    /// Assembles a fragmented data message: the payloads of all frames,
    /// concatenated in arrival order, under the opcode of the first frame.
    pub fn from_frames(frames: Vec<Frame>) -> (r: Message)
        requires
            frames@.len() > 0,
        ensures
            r@ == (MessageView {
                control: false,
                msg_type: frames@[0].header.opcode,
                contents: Some(spec_concat_payloads(frame_views(frames@))),
            }),
    {
        let opcode = frames[0].header.opcode;
        let mut contents: Vec<u8> = Vec::new();
        let mut i: usize = 0;
        while i < frames.len()
            invariant
                i <= frames@.len(),
                contents@ == spec_concat_payloads(frame_views(frames@.subrange(0, i as int))),
            decreases frames@.len() - i,
        {
            let ghost prev = contents@;
            let mut j: usize = 0;
            let n = frames[i].contents.len();
            while j < n
                invariant
                    j <= n,
                    n == frames@[i as int].contents@.len(),
                    i < frames@.len(),
                    contents@ == prev + frames@[i as int].contents@.subrange(0, j as int),
                decreases n - j,
            {
                contents.push(frames[i].contents[j]);
                proof {
                    assert(prev + frames@[i as int].contents@.subrange(0, j as int) + seq![
                        frames@[i as int].contents@[j as int],
                    ] =~= prev + frames@[i as int].contents@.subrange(0, j + 1 as int));
                }
                j += 1;
            }
            proof {
                let fv = frame_views(frames@.subrange(0, i + 1 as int));
                assert(fv.drop_last() =~= frame_views(frames@.subrange(0, i as int)));
                assert(frames@[i as int].contents@.subrange(
                    0,
                    frames@[i as int].contents@.len() as int,
                ) =~= frames@[i as int].contents@);
                assert(fv.last() == frames@[i as int]@);
                assert(contents@ == spec_concat_payloads(fv));
            }
            i += 1;
        }
        proof {
            assert(frames@.subrange(0, frames@.len() as int) =~= frames@);
        }
        Message { control: false, contents: Some(contents), msg_type: opcode }
    }

    /// The message payload decoded as text, or nothing for a control
    /// message.
    pub fn get_text(&self) -> (r: Option<String>)
        ensures
            match r {
                Some(s) => self.contents matches Some(c) && s@ == utf8_lossy_of(c@),
                None => self.contents is None,
            },
    {
        match &self.contents {
            None => None,
            Some(c) => Some(utf8_lossy(c.as_slice())),
        }
    }

    /// Builds a text data message from the encoded bytes of the string.
    pub fn from_text(text: String) -> (r: Message)
        ensures
            r@ == (MessageView {
                control: false,
                msg_type: TEXT,
                contents: Some(vstd::utf8::encode_utf8(text@)),
            }),
    {
        let bytes = vstd::slice::slice_to_vec(text.as_str().as_bytes());
        Message { contents: Some(bytes), control: false, msg_type: TEXT }
    }
}

} // verus!
