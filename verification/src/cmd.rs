//! The command layer: turning one decoded array frame into a typed
//! command, running it against the store, and producing the reply frame.
//! `handle_frame` is the whole server step for one request.
use vstd::prelude::*;

verus! {

use vstd::string::StringSliceAdditionalSpecFns;
use vstd::string::StrSliceExecFns;
use vstd::utf8::valid_utf8;
use crate::frame::{Frame, FrameView, frames_view, frame_view, lemma_frames_view};
use crate::db::{
    Db,
    DbView,
    Data,
    DataView,
    datas_view,
    data_view,
    lemma_datas_view,
    spec_set,
    spec_rpush,
    spec_get,
};
use crate::parse::{Parse, ParseError, data_of_frame};
use crate::text::{lower_seq, spec_atoi_u64, to_ascii_lower, eq_bytes};

/// Why a frame does not make a command.
#[derive(Debug, PartialEq)]
pub enum CmdError {
    /// The frame or an argument is malformed; the connection cannot
    /// continue.
    Parse(ParseError),
    /// A write carried an option token other than the two expiration
    /// options; the peer gets an error reply and the connection lives on.
    UnsupportedOption,
}

/// A ping: answered locally, with the message bounced back if one came.
#[derive(Debug)]
pub struct Ping {
    pub msg: Option<Vec<u8>>,
}

/// A read of one key.
#[derive(Debug)]
pub struct Get {
    pub key: Vec<u8>,
}

/// A write of one key, with an optional time-to-live in milliseconds.
#[derive(Debug)]
pub struct SetCmd {
    pub key: Vec<u8>,
    pub value: Vec<u8>,
    pub expire: Option<u64>,
}

/// An append of items to the list under a key.
#[derive(Debug)]
pub struct RPush {
    pub list_key: Vec<u8>,
    pub data: Vec<Data>,
}

/// A typed command, or the lower-cased name nothing matched.
#[derive(Debug)]
pub enum Command {
    Ping(Ping),
    SetCmd(SetCmd),
    Get(Get),
    RPush(RPush),
    Unknown(Vec<u8>),
}

/// The mathematical value of a command.
pub enum CommandView {
    Ping(Option<Seq<u8>>),
    SetCmd(Seq<u8>, Seq<u8>, Option<u64>),
    Get(Seq<u8>),
    RPush(Seq<u8>, Seq<DataView>),
    Unknown(Seq<u8>),
}

/// The value of a command.
pub open spec fn cmd_view(c: Command) -> CommandView {
    match c {
        Command::Ping(p) => CommandView::Ping(
            match p.msg {
                Some(m) => Some(m@),
                None => None,
            },
        ),
        Command::SetCmd(s) => CommandView::SetCmd(s.key@, s.value@, s.expire),
        Command::Get(g) => CommandView::Get(g.key@),
        Command::RPush(r) => CommandView::RPush(r.list_key@, datas_view(r.data@)),
        Command::Unknown(n) => CommandView::Unknown(n@),
    }
}

impl View for Command {
    type V = CommandView;

    open spec fn view(&self) -> CommandView {
        cmd_view(*self)
    }
}

/// An element read as text: a simple or bulk string of valid UTF-8.
pub open spec fn text_of(v: FrameView) -> Result<Seq<u8>, ParseError> {
    match v {
        FrameView::Simple(t) => if valid_utf8(t) {
            Ok(t)
        } else {
            Err(ParseError::InvalidUtf8)
        },
        FrameView::Bulk(t) => if valid_utf8(t) {
            Ok(t)
        } else {
            Err(ParseError::InvalidUtf8)
        },
        _ => Err(ParseError::WrongType),
    }
}

/// An element read as raw bytes: a simple or bulk string.
pub open spec fn bytes_of(v: FrameView) -> Result<Seq<u8>, ParseError> {
    match v {
        FrameView::Simple(t) => Ok(t),
        FrameView::Bulk(t) => Ok(t),
        _ => Err(ParseError::WrongType),
    }
}

/// An element read as a number: an integer frame or a decimal string.
pub open spec fn int_of(v: FrameView) -> Result<u64, ParseError> {
    match v {
        FrameView::Simple(t) => match spec_atoi_u64(t) {
            Some(n) => Ok(n),
            None => Err(ParseError::InvalidNumber),
        },
        FrameView::Bulk(t) => match spec_atoi_u64(t) {
            Some(n) => Ok(n),
            None => Err(ParseError::InvalidNumber),
        },
        FrameView::Integer(m) => Ok(m),
        _ => Err(ParseError::WrongType),
    }
}

/// Seconds to milliseconds, stopped at the largest representable count.
pub open spec fn sat_mul_1000(n: u64) -> u64 {
    if n * 1000 > u64::MAX {
        u64::MAX
    } else {
        (n * 1000) as u64
    }
}

/// The items of a list-push request, one per element.
pub open spec fn datas_of_frames(s: Seq<FrameView>) -> Seq<DataView> {
    Seq::new(
        s.len(),
        |i: int|
            match data_of_frame(s[i]) {
                Some(d) => d,
                None => DataView::Integer(0),
            },
    )
}

/// What a ping makes of its arguments: the optional message to bounce.
pub open spec fn spec_ping_cmd(args: Seq<FrameView>) -> Result<CommandView, CmdError> {
    if args.len() == 0 {
        Ok(CommandView::Ping(None))
    } else {
        match bytes_of(args[0]) {
            Ok(m) => Ok(CommandView::Ping(Some(m))),
            Err(e) => Err(CmdError::Parse(e)),
        }
    }
}

/// What a read makes of its arguments: the key.
pub open spec fn spec_get_cmd(args: Seq<FrameView>) -> Result<CommandView, CmdError> {
    if args.len() == 0 {
        Err(CmdError::Parse(ParseError::EndOfStream))
    } else {
        match text_of(args[0]) {
            Ok(key) => Ok(CommandView::Get(key)),
            Err(e) => Err(CmdError::Parse(e)),
        }
    }
}

/// What a write makes of its arguments: key, value, and the optional
/// expiration option — `ex` in seconds or `px` in milliseconds, matched
/// without regard to case.  Any other option token is refused.
pub open spec fn spec_set_cmd(args: Seq<FrameView>) -> Result<CommandView, CmdError> {
    if args.len() == 0 {
        Err(CmdError::Parse(ParseError::EndOfStream))
    } else {
        match text_of(args[0]) {
            Err(e) => Err(CmdError::Parse(e)),
            Ok(key) => if args.len() == 1 {
                Err(CmdError::Parse(ParseError::EndOfStream))
            } else {
                match bytes_of(args[1]) {
                    Err(e) => Err(CmdError::Parse(e)),
                    Ok(value) => if args.len() == 2 {
                        Ok(CommandView::SetCmd(key, value, None))
                    } else {
                        match text_of(args[2]) {
                            Err(e) => Err(CmdError::Parse(e)),
                            Ok(tok) => {
                                let lt = lower_seq(tok);
                                if lt == "ex".spec_bytes() {
                                    if args.len() == 3 {
                                        Err(CmdError::Parse(ParseError::EndOfStream))
                                    } else {
                                        match int_of(args[3]) {
                                            Ok(n) => Ok(
                                                CommandView::SetCmd(
                                                    key,
                                                    value,
                                                    Some(sat_mul_1000(n)),
                                                ),
                                            ),
                                            Err(e) => Err(CmdError::Parse(e)),
                                        }
                                    }
                                } else if lt == "px".spec_bytes() {
                                    if args.len() == 3 {
                                        Err(CmdError::Parse(ParseError::EndOfStream))
                                    } else {
                                        match int_of(args[3]) {
                                            Ok(n) => Ok(CommandView::SetCmd(key, value, Some(n))),
                                            Err(e) => Err(CmdError::Parse(e)),
                                        }
                                    }
                                } else {
                                    Err(CmdError::UnsupportedOption)
                                }
                            },
                        }
                    },
                }
            },
        }
    }
}

/// What a list push makes of its arguments: the key and the items, each
/// of which must be a string, bulk bytes or an integer.
pub open spec fn spec_rpush_cmd(args: Seq<FrameView>) -> Result<CommandView, CmdError> {
    if args.len() == 0 {
        Err(CmdError::Parse(ParseError::EndOfStream))
    } else {
        match text_of(args[0]) {
            Err(e) => Err(CmdError::Parse(e)),
            Ok(key) => {
                let rest = args.drop_first();
                if forall|i: int| 0 <= i < rest.len() ==> data_of_frame(#[trigger] rest[i]) is Some {
                    Ok(CommandView::RPush(key, datas_of_frames(rest)))
                } else {
                    Err(CmdError::Parse(ParseError::WrongType))
                }
            },
        }
    }
}

/// What dispatch makes of one decoded frame.  The frame must be an array;
/// its first element names the command, matched without regard to case;
/// the rest are the command's arguments.  An unmatched name becomes the
/// `Unknown` command, carrying the lower-cased name.
pub open spec fn spec_command(f: FrameView) -> Result<CommandView, CmdError> {
    match f {
        FrameView::Array(vs) => {
            if vs.len() == 0 {
                Err(CmdError::Parse(ParseError::EndOfStream))
            } else {
                match text_of(vs[0]) {
                    Err(e) => Err(CmdError::Parse(e)),
                    Ok(raw) => {
                        let name = lower_seq(raw);
                        let args = vs.drop_first();
                        if name == "ping".spec_bytes() {
                            spec_ping_cmd(args)
                        } else if name == "get".spec_bytes() {
                            spec_get_cmd(args)
                        } else if name == "set".spec_bytes() {
                            spec_set_cmd(args)
                        } else if name == "rpush".spec_bytes() {
                            spec_rpush_cmd(args)
                        } else {
                            Ok(CommandView::Unknown(name))
                        }
                    },
                }
            }
        },
        _ => Err(CmdError::Parse(ParseError::NotArray)),
    }
}

impl View for Ping {
    type V = Option<Seq<u8>>;

    open spec fn view(&self) -> Option<Seq<u8>> {
        match self.msg {
            Some(m) => Some(m@),
            None => None,
        }
    }
}

impl View for Get {
    type V = Seq<u8>;

    open spec fn view(&self) -> Seq<u8> {
        self.key@
    }
}

impl View for SetCmd {
    type V = (Seq<u8>, Seq<u8>, Option<u64>);

    open spec fn view(&self) -> (Seq<u8>, Seq<u8>, Option<u64>) {
        (self.key@, self.value@, self.expire)
    }
}

impl View for RPush {
    type V = (Seq<u8>, Seq<DataView>);

    open spec fn view(&self) -> (Seq<u8>, Seq<DataView>) {
        (self.list_key@, datas_view(self.data@))
    }
}

/// The reply to a ping: `PONG`, or the message bounced back as bulk
/// bytes.
pub open spec fn spec_ping_reply(msg: Option<Seq<u8>>) -> FrameView {
    match msg {
        None => FrameView::Simple("PONG".spec_bytes()),
        Some(m) => FrameView::Bulk(m),
    }
}

/// The reply text for a read of a key that holds a list.
pub open spec fn wrong_type_msg() -> Seq<u8> {
    "operation against a key holding the wrong kind of value".spec_bytes()
}

/// The reply to a read: nothing becomes the null frame, bytes and text
/// become bulk bytes, a number stays a number, and a list is refused.
pub open spec fn spec_get_reply(v: DbView, key: Seq<u8>) -> FrameView {
    match spec_get(v, key) {
        None => FrameView::Null,
        Some(DataView::Bytes(b)) => FrameView::Bulk(b),
        Some(DataView::String(s)) => FrameView::Bulk(s),
        Some(DataView::Integer(n)) => FrameView::Integer(n),
        Some(DataView::Array(_)) => FrameView::Error(wrong_type_msg()),
    }
}

/// The reply to a successful write.
pub open spec fn ok_msg() -> Seq<u8> {
    "OK".spec_bytes()
}

/// The reply text prefix for a command nothing matched.
pub open spec fn unknown_prefix() -> Seq<u8> {
    "unknown command ".spec_bytes()
}

/// The reply text for a write with an option other than expiration.
pub open spec fn option_msg() -> Seq<u8> {
    "only supports expiration option".spec_bytes()
}

/// What one command does: the reply it sends, the store it leaves, and
/// whether the reaper must be woken.
pub open spec fn spec_execute(c: CommandView, v: DbView, now: u64) -> (FrameView, DbView, bool) {
    match c {
        CommandView::Ping(m) => (spec_ping_reply(m), v, false),
        CommandView::Get(k) => (spec_get_reply(v, k), v, false),
        CommandView::SetCmd(k, val, ex) => (
            FrameView::Simple(ok_msg()),
            spec_set(v, k, DataView::Bytes(val), ex, now).0,
            spec_set(v, k, DataView::Bytes(val), ex, now).1,
        ),
        CommandView::RPush(k, items) => (
            FrameView::Integer(spec_rpush(v, k, items).1 as u64),
            spec_rpush(v, k, items).0,
            false,
        ),
        CommandView::Unknown(n) => (FrameView::Error(unknown_prefix() + n), v, false),
    }
}

/// What the server does with one decoded frame: dispatch errors that only
/// concern the write options become an error reply and the connection
/// lives on; any other dispatch error is fatal to the connection.
pub open spec fn spec_step(v: DbView, f: FrameView, now: u64) -> Result<
    (FrameView, DbView, bool),
    ParseError,
> {
    match spec_command(f) {
        Ok(c) => Ok(spec_execute(c, v, now)),
        Err(CmdError::UnsupportedOption) => Ok((FrameView::Error(option_msg()), v, false)),
        Err(CmdError::Parse(e)) => Err(e),
    }
}

impl Ping {
    /// A ping with an optional message to bounce.
    pub fn new(msg: Option<Vec<u8>>) -> (p: Ping)
        ensures
            p@ == (match msg {
                Some(m) => Some(m@),
                None => None::<Seq<u8>>,
            }),
    {
        Ping { msg }
    }

    /// Reads the optional message; the name token is already consumed.
    pub fn parse_frames(parse: &mut Parse) -> (r: Result<Ping, ParseError>)
        requires
            old(parse).wf(),
        ensures
            final(parse).wf(),
            match r {
                Ok(p) => spec_ping_cmd(old(parse).remaining()) == Ok::<CommandView, CmdError>(
                    CommandView::Ping(p@),
                ),
                Err(e) => spec_ping_cmd(old(parse).remaining()) == Err::<CommandView, CmdError>(
                    CmdError::Parse(e),
                ),
            },
    {
        match parse.next_bytes() {
            Ok(m) => Ok(Ping { msg: Some(m) }),
            Err(ParseError::EndOfStream) => Ok(Ping { msg: None }),
            Err(e) => Err(e),
        }
    }

    /// The reply: `PONG`, or the message bounced back.
    pub fn execute(self) -> (r: Frame)
        ensures
            r@ == spec_ping_reply(self@),
    {
        match self.msg {
            None => Frame::Simple(vstd::slice::slice_to_vec("PONG".as_bytes())),
            Some(m) => Frame::Bulk(m),
        }
    }

    /// The request frame a client sends for this ping.
    pub fn into_frame(self) -> (f: Frame)
        ensures
            f@ == FrameView::Array(
                match self@ {
                    None => seq![FrameView::Simple("ping".spec_bytes())],
                    Some(m) => seq![FrameView::Simple("ping".spec_bytes()), FrameView::Bulk(m)],
                },
            ),
    {
        let mut items: Vec<Frame> = Vec::new();
        items.push(Frame::Simple(vstd::slice::slice_to_vec("ping".as_bytes())));
        let ghost one = items@;
        match self.msg {
            None => {
                proof {
                    lemma_frames_view(one);
                    assert(frames_view(one) =~= seq![FrameView::Simple("ping".spec_bytes())]);
                }
            },
            Some(m) => {
                let ghost mv = m@;
                items.push(Frame::Bulk(m));
                proof {
                    lemma_frames_view(items@);
                    assert(frames_view(items@) =~= seq![
                        FrameView::Simple("ping".spec_bytes()),
                        FrameView::Bulk(mv),
                    ]);
                }
            },
        }
        Frame::Array(items)
    }
}

impl Get {
    /// A read of `key`.
    pub fn new(key: Vec<u8>) -> (g: Get)
        ensures
            g@ == key@,
    {
        Get { key }
    }

    /// Reads the key; the name token is already consumed.
    pub fn parse_frame(parse: &mut Parse) -> (r: Result<Get, ParseError>)
        requires
            old(parse).wf(),
        ensures
            final(parse).wf(),
            match r {
                Ok(g) => spec_get_cmd(old(parse).remaining()) == Ok::<CommandView, CmdError>(
                    CommandView::Get(g@),
                ),
                Err(e) => spec_get_cmd(old(parse).remaining()) == Err::<CommandView, CmdError>(
                    CmdError::Parse(e),
                ),
            },
    {
        let key = parse.next_string()?;
        Ok(Get { key })
    }

    /// The reply: the key's value re-wrapped as a frame, the null frame
    /// for an absent key, or an error for a key holding a list.
    pub fn execute(self, db: &Db) -> (r: Frame)
        requires
            db.wf(),
        ensures
            r@ == spec_get_reply(db@, self@),
    {
        match db.get(self.key.as_slice()) {
            None => Frame::Null,
            Some(d) => match d {
                Data::Bytes(b) => Frame::Bulk(vstd::slice::slice_to_vec(b.as_slice())),
                Data::String(s) => Frame::Bulk(vstd::slice::slice_to_vec(s.as_slice())),
                Data::Integer(n) => Frame::Integer(*n),
                Data::Array(_) => Frame::Error(
                    vstd::slice::slice_to_vec(
                        "operation against a key holding the wrong kind of value".as_bytes(),
                    ),
                ),
            },
        }
    }

    /// The request frame a client sends for this read.
    pub fn into_frame(self) -> (f: Frame)
        ensures
            f@ == FrameView::Array(
                seq![
                    FrameView::Simple("get".spec_bytes()),
                    FrameView::Simple(self@),
                ],
            ),
    {
        let mut items: Vec<Frame> = Vec::new();
        items.push(Frame::Simple(vstd::slice::slice_to_vec("get".as_bytes())));
        let ghost kv = self.key@;
        items.push(Frame::Simple(self.key));
        proof {
            lemma_frames_view(items@);
            assert(frames_view(items@) =~= seq![
                FrameView::Simple("get".spec_bytes()),
                FrameView::Simple(kv),
            ]);
        }
        Frame::Array(items)
    }
}

impl SetCmd {
    /// A write of `value` under `key`, lapsing after `expire`
    /// milliseconds if given.
    pub fn new(key: Vec<u8>, value: Vec<u8>, expire: Option<u64>) -> (s: SetCmd)
        ensures
            s@ == (key@, value@, expire),
    {
        SetCmd { key, value, expire }
    }

    /// Reads key, value and the optional expiration option; the name
    /// token is already consumed.
    pub fn parse_frames(parse: &mut Parse) -> (r: Result<SetCmd, CmdError>)
        requires
            old(parse).wf(),
        ensures
            final(parse).wf(),
            match r {
                Ok(s) => spec_set_cmd(old(parse).remaining()) == Ok::<CommandView, CmdError>(
                    CommandView::SetCmd(s@.0, s@.1, s@.2),
                ),
                Err(e) => spec_set_cmd(old(parse).remaining()) == Err::<CommandView, CmdError>(e),
            },
    {
        let ghost args = old(parse).remaining();
        let key = match parse.next_string() {
            Ok(k) => k,
            Err(e) => {
                return Err(CmdError::Parse(e));
            },
        };
        proof {
            assert(parse.remaining() =~= args.drop_first());
        }
        let value = match parse.next_bytes() {
            Ok(v) => v,
            Err(e) => {
                proof {
                    if args.drop_first().len() > 0 {
                        assert(args.drop_first()[0] == args[1]);
                    }
                }
                return Err(CmdError::Parse(e));
            },
        };
        proof {
            assert(args.drop_first()[0] == args[1]);
            assert(parse.remaining() =~= args.drop_first().drop_first());
        }
        match parse.next_string() {
            Err(ParseError::EndOfStream) => Ok(SetCmd { key, value, expire: None }),
            Err(e) => {
                proof {
                    assert(args.drop_first().drop_first()[0] == args[2]);
                }
                Err(CmdError::Parse(e))
            },
            Ok(tok) => {
                proof {
                    assert(args.drop_first().drop_first()[0] == args[2]);
                    assert(parse.remaining() =~= args.drop_first().drop_first().drop_first());
                }
                let lt = to_ascii_lower(tok.as_slice());
                let is_ex = eq_bytes(lt.as_slice(), "ex".as_bytes());
                let is_px = eq_bytes(lt.as_slice(), "px".as_bytes());
                if is_ex || is_px {
                    let n = match parse.next_int() {
                        Ok(n) => n,
                        Err(e) => {
                            proof {
                                if args.len() > 3 {
                                    assert(args.drop_first().drop_first().drop_first()[0]
                                        == args[3]);
                                }
                            }
                            return Err(CmdError::Parse(e));
                        },
                    };
                    proof {
                        assert(args.drop_first().drop_first().drop_first()[0] == args[3]);
                    }
                    let ms = if is_ex {
                        if n > u64::MAX / 1000 {
                            u64::MAX
                        } else {
                            n * 1000
                        }
                    } else {
                        n
                    };
                    proof {
                        if is_ex {
                            assert(ms == sat_mul_1000(n));
                        }
                    }
                    Ok(SetCmd { key, value, expire: Some(ms) })
                } else {
                    Err(CmdError::UnsupportedOption)
                }
            },
        }
    }

    /// Writes the value into the store and replies `OK`.  The returned
    /// flag asks the caller to wake the reaper once it has released its
    /// lock on the store.
    pub fn execute(self, db: &mut Db, now: u64) -> (r: (Frame, bool))
        requires
            old(db).wf(),
        ensures
            final(db).wf(),
            final(db)@ == spec_set(old(db)@, self@.0, DataView::Bytes(self@.1), self@.2, now).0,
            r.1 == spec_set(old(db)@, self@.0, DataView::Bytes(self@.1), self@.2, now).1,
            r.0@ == FrameView::Simple(ok_msg()),
    {
        let SetCmd { key, value, expire } = self;
        let notify = db.set(key, Data::Bytes(value), expire, now);
        (Frame::Simple(vstd::slice::slice_to_vec("OK".as_bytes())), notify)
    }

    /// The request frame a client sends for this write; an expiration is
    /// carried as a `px` option in milliseconds, the finer of the two.
    pub fn into_frame(self) -> (f: Frame)
        ensures
            f@ == FrameView::Array(
                match self@.2 {
                    None => seq![
                        FrameView::Simple("set".spec_bytes()),
                        FrameView::Simple(self@.0),
                        FrameView::Bulk(self@.1),
                    ],
                    Some(ms) => seq![
                        FrameView::Simple("set".spec_bytes()),
                        FrameView::Simple(self@.0),
                        FrameView::Bulk(self@.1),
                        FrameView::Simple("px".spec_bytes()),
                        FrameView::Integer(ms),
                    ],
                },
            ),
    {
        let ghost kv = self.key@;
        let ghost vv = self.value@;
        let mut items: Vec<Frame> = Vec::new();
        items.push(Frame::Simple(vstd::slice::slice_to_vec("set".as_bytes())));
        items.push(Frame::Simple(self.key));
        items.push(Frame::Bulk(self.value));
        match self.expire {
            None => {
                proof {
                    lemma_frames_view(items@);
                    assert(frames_view(items@) =~= seq![
                        FrameView::Simple("set".spec_bytes()),
                        FrameView::Simple(kv),
                        FrameView::Bulk(vv),
                    ]);
                }
            },
            Some(ms) => {
                items.push(Frame::Simple(vstd::slice::slice_to_vec("px".as_bytes())));
                items.push(Frame::Integer(ms));
                proof {
                    lemma_frames_view(items@);
                    assert(frames_view(items@) =~= seq![
                        FrameView::Simple("set".spec_bytes()),
                        FrameView::Simple(kv),
                        FrameView::Bulk(vv),
                        FrameView::Simple("px".spec_bytes()),
                        FrameView::Integer(ms),
                    ]);
                }
            },
        }
        Frame::Array(items)
    }
}

/// The frame that carries one list item on the wire: text as a simple
/// string, bytes as bulk bytes, numbers as integer frames.
pub open spec fn frame_of_data(d: DataView) -> FrameView {
    match d {
        DataView::Bytes(b) => FrameView::Bulk(b),
        DataView::String(s) => FrameView::Simple(s),
        DataView::Integer(n) => FrameView::Integer(n),
        DataView::Array(_) => FrameView::Null,
    }
}

/// The frames of a sequence of list items, in order.
pub open spec fn frames_of_datas(s: Seq<DataView>) -> Seq<FrameView> {
    Seq::new(s.len(), |i: int| frame_of_data(s[i]))
}

impl RPush {
    /// An append of `data` to the list under `list_key`.
    pub fn new(list_key: Vec<u8>, data: Vec<Data>) -> (r: RPush)
        ensures
            r@ == (list_key@, datas_view(data@)),
    {
        RPush { list_key, data }
    }

    /// Reads the key and the remaining elements as the items to push; the
    /// name token is already consumed.
    pub fn parse_frames(parse: &mut Parse) -> (r: Result<RPush, ParseError>)
        requires
            old(parse).wf(),
        ensures
            final(parse).wf(),
            match r {
                Ok(p) => spec_rpush_cmd(old(parse).remaining()) == Ok::<CommandView, CmdError>(
                    CommandView::RPush(p@.0, p@.1),
                ),
                Err(e) => spec_rpush_cmd(old(parse).remaining()) == Err::<CommandView, CmdError>(
                    CmdError::Parse(e),
                ),
            },
    {
        let ghost args = old(parse).remaining();
        let list_key = parse.next_string()?;
        proof {
            assert(parse.remaining() =~= args.drop_first());
        }
        let ghost rest = args.drop_first();
        match parse.next_array() {
            Ok(data) => {
                proof {
                    assert(datas_view(data@) =~= datas_of_frames(rest));
                }
                Ok(RPush { list_key, data })
            },
            Err(e) => Err(e),
        }
    }

    /// Appends the items to the stored list and replies with the list's
    /// new length, or with zero when the key holds a non-list, which is
    /// left untouched.
    pub fn execute(self, db: &mut Db) -> (r: Frame)
        requires
            old(db).wf(),
        ensures
            final(db).wf(),
            final(db)@ == spec_rpush(old(db)@, self@.0, self@.1).0,
            r@ == FrameView::Integer(spec_rpush(old(db)@, self@.0, self@.1).1 as u64),
    {
        let RPush { list_key, data } = self;
        let n = db.rpush(list_key, data);
        Frame::Integer(n)
    }

    /// The request frame a client sends for this push.  Items must not
    /// themselves be lists: one level of nesting is all the encoder
    /// writes.
    pub fn into_frame(self) -> (f: Frame)
        requires
            forall|i: int| 0 <= i < self@.1.len() ==> !((#[trigger] self@.1[i]) is Array),
        ensures
            f@ == FrameView::Array(
                seq![
                    FrameView::Simple("rpush".spec_bytes()),
                    FrameView::Simple(self@.0),
                ] + frames_of_datas(self@.1),
            ),
    {
        let ghost kv = self.list_key@;
        let ghost dv = datas_view(self.data@);
        let mut items: Vec<Frame> = Vec::new();
        items.push(Frame::Simple(vstd::slice::slice_to_vec("rpush".as_bytes())));
        items.push(Frame::Simple(self.list_key));
        let ghost header = frames_view(items@);
        proof {
            lemma_frames_view(items@);
            lemma_datas_view(self.data@);
            assert(header =~= seq![
                FrameView::Simple("rpush".spec_bytes()),
                FrameView::Simple(kv),
            ]);
            assert forall|j: int| 0 <= j < dv.len() implies !((#[trigger] dv[j]) is Array) by {
                assert(dv[j] == self@.1[j]);
            }
        }
        let mut i: usize = 0;
        while i < self.data.len()
            invariant
                i <= self.data@.len(),
                dv == datas_view(self.data@),
                dv.len() == self.data@.len(),
                forall|j: int| 0 <= j < self.data@.len() ==> (#[trigger] dv[j]) == data_view(
                    self.data@[j],
                ),
                forall|j: int| 0 <= j < dv.len() ==> !((#[trigger] dv[j]) is Array),
                frames_view(items@) == header + frames_of_datas(dv.take(i as int)),
            decreases self.data@.len() - i,
        {
            let elem = match &self.data[i] {
                Data::Bytes(b) => Frame::Bulk(vstd::slice::slice_to_vec(b.as_slice())),
                Data::String(s) => Frame::Simple(vstd::slice::slice_to_vec(s.as_slice())),
                Data::Integer(n) => Frame::Integer(*n),
                Data::Array(_) => {
                    proof {
                        assert(false);
                    }
                    vstd::pervasive::unreached()
                },
            };
            proof {
                assert(elem@ == frame_of_data(dv[i as int]));
            }
            let ghost before = items@;
            items.push(elem);
            proof {
                assert(items@.drop_last() =~= before);
                assert(frames_view(items@) == frames_view(before).push(frame_view(
                    items@.last(),
                )));
                assert(frames_view(items@) =~= header + frames_of_datas(dv.take(i + 1)));
            }
            i = i + 1;
        }
        proof {
            assert(dv.take(dv.len() as int) =~= dv);
        }
        Frame::Array(items)
    }
}

impl Command {
    /// Typed dispatch of one decoded frame: the array's first element
    /// names the command, matched without regard to case; whatever the
    /// four known names do not match becomes `Unknown`.
    pub fn from_frame(frame: Frame) -> (r: Result<Command, CmdError>)
        ensures
            match r {
                Ok(c) => spec_command(frame@) == Ok::<CommandView, CmdError>(c@),
                Err(e) => spec_command(frame@) == Err::<CommandView, CmdError>(e),
            },
    {
        let ghost fv = frame@;
        let mut parse = match Parse::new(frame) {
            Ok(p) => p,
            Err(e) => {
                proof {
                    assert(e == ParseError::NotArray);
                }
                return Err(CmdError::Parse(e));
            },
        };
        let ghost vs = fv->Array_0;
        let raw = match parse.next_string() {
            Ok(b) => b,
            Err(e) => {
                return Err(CmdError::Parse(e));
            },
        };
        let ghost args = vs.drop_first();
        proof {
            assert(parse.remaining() =~= args);
        }
        let name = to_ascii_lower(raw.as_slice());
        if eq_bytes(name.as_slice(), "ping".as_bytes()) {
            match Ping::parse_frames(&mut parse) {
                Ok(p) => Ok(Command::Ping(p)),
                Err(e) => Err(CmdError::Parse(e)),
            }
        } else if eq_bytes(name.as_slice(), "get".as_bytes()) {
            match Get::parse_frame(&mut parse) {
                Ok(g) => Ok(Command::Get(g)),
                Err(e) => Err(CmdError::Parse(e)),
            }
        } else if eq_bytes(name.as_slice(), "set".as_bytes()) {
            match SetCmd::parse_frames(&mut parse) {
                Ok(s) => Ok(Command::SetCmd(s)),
                Err(e) => Err(e),
            }
        } else if eq_bytes(name.as_slice(), "rpush".as_bytes()) {
            match RPush::parse_frames(&mut parse) {
                Ok(p) => Ok(Command::RPush(p)),
                Err(e) => Err(CmdError::Parse(e)),
            }
        } else {
            Ok(Command::Unknown(name))
        }
    }

    /// Runs the command against the store and produces the reply frame,
    /// with the flag that asks the caller to wake the reaper.
    pub fn execute(self, db: &mut Db, now: u64) -> (r: (Frame, bool))
        requires
            old(db).wf(),
        ensures
            final(db).wf(),
            r.0@ == spec_execute(self@, old(db)@, now).0,
            final(db)@ == spec_execute(self@, old(db)@, now).1,
            r.1 == spec_execute(self@, old(db)@, now).2,
    {
        match self {
            Command::Ping(cmd) => (cmd.execute(), false),
            Command::Get(cmd) => (cmd.execute(db), false),
            Command::SetCmd(cmd) => cmd.execute(db, now),
            Command::RPush(cmd) => (cmd.execute(db), false),
            Command::Unknown(name) => {
                let mut msg = vstd::slice::slice_to_vec("unknown command ".as_bytes());
                crate::frame::push_bytes(&mut msg, name.as_slice());
                (Frame::Error(msg), false)
            },
        }
    }
}

/// One whole server step: decode the frame into a command, run it against
/// the store, and hand back the reply with the wake-the-reaper flag.  A
/// write with an unsupported option is answered with an error reply and
/// the connection lives on; an error return is fatal to the connection.
pub fn handle_frame(db: &mut Db, frame: Frame, now: u64) -> (r: Result<(Frame, bool), ParseError>)
    requires
        old(db).wf(),
    ensures
        final(db).wf(),
        match r {
            Ok((reply, notify)) => {
                &&& spec_step(old(db)@, frame@, now) matches Ok(t) && t.0 == reply@ && t.1
                    == final(db)@ && t.2 == notify
            },
            Err(e) => {
                &&& spec_step(old(db)@, frame@, now) == Err::<(FrameView, DbView, bool), ParseError>(e)
                &&& final(db)@ == old(db)@
            },
        },
{
    match Command::from_frame(frame) {
        Ok(cmd) => {
            let (reply, notify) = cmd.execute(db, now);
            Ok((reply, notify))
        },
        Err(CmdError::UnsupportedOption) => Ok(
            (Frame::Error(vstd::slice::slice_to_vec("only supports expiration option".as_bytes())), false),
        ),
        Err(CmdError::Parse(e)) => Err(e),
    }
}

/// Law: command dispatch is case-insensitive.  Two frames that differ
/// only in the case of their command name make the same command.
pub proof fn lemma_case_insensitive(n1: Seq<u8>, n2: Seq<u8>, args: Seq<FrameView>)
    requires
        valid_utf8(n1),
        valid_utf8(n2),
        lower_seq(n1) == lower_seq(n2),
    ensures
        spec_command(FrameView::Array(seq![FrameView::Bulk(n1)] + args)) == spec_command(
            FrameView::Array(seq![FrameView::Bulk(n2)] + args),
        ),
{
    let v1 = seq![FrameView::Bulk(n1)] + args;
    let v2 = seq![FrameView::Bulk(n2)] + args;
    assert(v1[0] == FrameView::Bulk(n1));
    assert(v2[0] == FrameView::Bulk(n2));
    assert(v1.drop_first() =~= args);
    assert(v2.drop_first() =~= args);
}

/// Law: an unmatched command name is answered with an error reply that
/// names it lower-cased, the store does not change, and the step is no
/// failure, so the connection stays usable for the next frame.
pub proof fn lemma_unknown_command(v: DbView, name: Seq<u8>, now: u64)
    requires
        valid_utf8(name),
        lower_seq(name) != "ping".spec_bytes(),
        lower_seq(name) != "get".spec_bytes(),
        lower_seq(name) != "set".spec_bytes(),
        lower_seq(name) != "rpush".spec_bytes(),
    ensures
        spec_step(v, FrameView::Array(seq![FrameView::Bulk(name)]), now) == Ok::<
            (FrameView, DbView, bool),
            ParseError,
        >((FrameView::Error(unknown_prefix() + lower_seq(name)), v, false)),
{
    let vs = seq![FrameView::Bulk(name)];
    assert(vs[0] == FrameView::Bulk(name));
}

} // verus!
