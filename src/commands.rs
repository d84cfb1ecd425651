use vstd::prelude::*;
use vstd::utf8::{decode_utf8, encode_utf8, valid_utf8};

use crate::db::{after_set, deadline, lookup, wakes_reaper, EntryModel, State};
use crate::decimal::{decimal_value, parse_decimal};
use crate::frame::{frames_view, lemma_frames_view_index, malformed, str_from_utf8, Error, Frame, FrameModel};

verus! {

/// `GET key`
pub struct Get {
    pub key: String,
}

/// `SET key value [PX ms]`
pub struct SetCmd {
    pub key: String,
    pub value: Vec<u8>,
    /// Time to live, in milliseconds.
    pub expire: Option<u64>,
}

/// `PING`
pub struct Ping;

/// `ECHO msg`
pub struct Echo {
    pub msg: Vec<u8>,
}

/// A request, read from the array frame that carries it.
pub enum Command {
    Ping(Ping),
    Echo(Echo),
    SetCmd(SetCmd),
    Get(Get),
}

/// The mathematical value of a request.
pub enum CommandModel {
    Ping,
    Echo(Seq<u8>),
    SetCmd(Seq<char>, Seq<u8>, Option<u64>),
    Get(Seq<char>),
}

impl View for Command {
    type V = CommandModel;

    open spec fn view(&self) -> CommandModel {
        match self {
            Command::Ping(_) => CommandModel::Ping,
            Command::Echo(e) => CommandModel::Echo(e.msg@),
            Command::SetCmd(s) => CommandModel::SetCmd(s.key@, s.value@, s.expire),
            Command::Get(g) => CommandModel::Get(g.key@),
        }
    }
}

/// The bytes of a text or bulk frame.
pub open spec fn bytes_of(m: FrameModel) -> Option<Seq<u8>> {
    match m {
        FrameModel::Simple(s) => Some(encode_utf8(s)),
        FrameModel::Bulk(b) => Some(b),
        _ => None,
    }
}

/// The text of a text frame, or of a bulk frame that holds UTF-8.
pub open spec fn string_of(m: FrameModel) -> Option<Seq<char>> {
    match m {
        FrameModel::Simple(s) => Some(s),
        FrameModel::Bulk(b) => if valid_utf8(b) {
            Some(decode_utf8(b))
        } else {
            None
        },
        _ => None,
    }
}

/// The number that an integer frame holds, or that a text or bulk frame
/// spells in decimal.
pub open spec fn int_of(m: FrameModel) -> Option<u64> {
    match m {
        FrameModel::Integer(n) => Some(n),
        FrameModel::Simple(s) => decimal_value(encode_utf8(s)),
        FrameModel::Bulk(b) => decimal_value(b),
        _ => None,
    }
}

pub open spec fn lower(b: u8) -> u8 {
    if 65 <= b <= 90 {
        (b + 32) as u8
    } else {
        b
    }
}

/// `x` spells the lower-case name `lit`, in any case.
pub open spec fn same_name(x: Seq<u8>, lit: Seq<u8>) -> bool {
    x.len() == lit.len() && forall|i: int| 0 <= i < x.len() ==> lower(#[trigger] x[i]) == lit[i]
}

pub open spec fn name_ping() -> Seq<u8> {
    seq![112u8, 105u8, 110u8, 103u8]
}

pub open spec fn name_echo() -> Seq<u8> {
    seq![101u8, 99u8, 104u8, 111u8]
}

pub open spec fn name_get() -> Seq<u8> {
    seq![103u8, 101u8, 116u8]
}

pub open spec fn name_set() -> Seq<u8> {
    seq![115u8, 101u8, 116u8]
}

pub open spec fn name_px() -> Seq<u8> {
    seq![112u8, 120u8]
}

/// The argument of `ECHO`: one text or bulk frame.
pub open spec fn echo_of(args: Seq<FrameModel>) -> Option<Seq<u8>> {
    if args.len() == 1 {
        bytes_of(args[0])
    } else {
        None
    }
}

/// The argument of `GET`: one key.
pub open spec fn get_of(args: Seq<FrameModel>) -> Option<Seq<char>> {
    if args.len() == 1 {
        string_of(args[0])
    } else {
        None
    }
}

/// The arguments of `SET`: a key, a value, and optionally `PX` (in any case)
/// with a time to live in milliseconds.
pub open spec fn set_of(args: Seq<FrameModel>) -> Option<(Seq<char>, Seq<u8>, Option<u64>)> {
    if args.len() == 2 || args.len() == 4 {
        match (string_of(args[0]), bytes_of(args[1])) {
            (Some(k), Some(b)) => if args.len() == 2 {
                Some((k, b, None))
            } else {
                match (bytes_of(args[2]), int_of(args[3])) {
                    (Some(opt), Some(ms)) => if same_name(opt, name_px()) {
                        Some((k, b, Some(ms)))
                    } else {
                        None
                    },
                    _ => None,
                }
            },
            _ => None,
        }
    } else {
        None
    }
}

/// The request that an array frame carries: its first element names the
/// operation, in any case, and the rest are its arguments.
pub open spec fn command_of(m: FrameModel) -> Option<CommandModel> {
    match m {
        FrameModel::Array(v) => if v.len() == 0 {
            None
        } else {
            let args = v.subrange(1, v.len() as int);
            match bytes_of(v[0]) {
                None => None,
                Some(name) => if same_name(name, name_ping()) {
                    Some(CommandModel::Ping)
                } else if same_name(name, name_echo()) {
                    match echo_of(args) {
                        Some(b) => Some(CommandModel::Echo(b)),
                        None => None,
                    }
                } else if same_name(name, name_get()) {
                    match get_of(args) {
                        Some(k) => Some(CommandModel::Get(k)),
                        None => None,
                    }
                } else if same_name(name, name_set()) {
                    match set_of(args) {
                        Some((k, b, ttl)) => Some(CommandModel::SetCmd(k, b, ttl)),
                        None => None,
                    }
                } else {
                    None
                },
            }
        },
        _ => None,
    }
}

/// Reads the frames of a request one at a time.
pub struct FrameIter {
    pub frames: Vec<Frame>,
    pub pos: usize,
}

impl FrameIter {
    pub open spec fn at(&self) -> Option<FrameModel> {
        if self.pos < self.frames@.len() {
            Some(self.frames@[self.pos as int]@)
        } else {
            None
        }
    }

    /// The frames not read yet.
    pub open spec fn rest(&self) -> Seq<FrameModel> {
        frames_view(self.frames@).subrange(self.pos as int, self.frames@.len() as int)
    }

    pub open spec fn stepped(&self, old: &FrameIter) -> bool {
        &&& self.frames == old.frames
        &&& self.pos == if old.pos < old.frames@.len() { old.pos + 1 } else { old.pos as int }
    }

    /// The bytes of the next frame, which must be text or bulk.
    pub fn next_bytes(&mut self) -> (r: Result<Vec<u8>, Error>)
        ensures
            final(self).stepped(old(self)),
            match old(self).at() {
                Some(m) => match bytes_of(m) {
                    Some(b) => r matches Ok(d) && d@ == b,
                    None => r is Err,
                },
                None => r is Err,
            },
    {
        if self.pos >= self.frames.len() {
            return Err(malformed());
        }
        let r = match &self.frames[self.pos] {
            Frame::Simple(s) => Ok(vstd::slice::slice_to_vec(s.as_str().as_bytes())),
            Frame::Bulk(d) => Ok(vstd::slice::slice_to_vec(d.as_slice())),
            _ => Err(malformed()),
        };
        self.pos = self.pos + 1;
        r
    }

    /// The text of the next frame, which must be text, or bulk that holds
    /// UTF-8.
    pub fn next_string(&mut self) -> (r: Option<String>)
        ensures
            final(self).stepped(old(self)),
            match old(self).at() {
                Some(m) => match string_of(m) {
                    Some(t) => r matches Some(s) && s@ == t,
                    None => r is None,
                },
                None => r is None,
            },
    {
        if self.pos >= self.frames.len() {
            return None;
        }
        let r = match &self.frames[self.pos] {
            Frame::Simple(s) => Some(s.clone()),
            Frame::Bulk(d) => match str_from_utf8(d.as_slice()) {
                Some(text) => {
                    proof {
                        vstd::utf8::encode_utf8_decode_utf8(text@);
                    }
                    Some(text.to_owned())
                },
                None => None,
            },
            _ => None,
        };
        self.pos = self.pos + 1;
        r
    }

    /// The number that the next frame holds or spells.
    pub fn next_int(&mut self) -> (r: Result<u64, Error>)
        ensures
            final(self).stepped(old(self)),
            match old(self).at() {
                Some(m) => match int_of(m) {
                    Some(n) => r == Ok::<u64, Error>(n),
                    None => r is Err,
                },
                None => r is Err,
            },
    {
        if self.pos >= self.frames.len() {
            return Err(malformed());
        }
        let r = match &self.frames[self.pos] {
            Frame::Integer(n) => Ok(*n),
            Frame::Simple(s) => match parse_decimal(s.as_str().as_bytes()) {
                Some(n) => Ok(n),
                None => Err(malformed()),
            },
            Frame::Bulk(d) => match parse_decimal(d.as_slice()) {
                Some(n) => Ok(n),
                None => Err(malformed()),
            },
            _ => Err(malformed()),
        };
        self.pos = self.pos + 1;
        r
    }
}

/// Whether `x` spells the lower-case name `lit`, in any case.
pub fn is_name(x: &[u8], lit: &[u8]) -> (r: bool)
    ensures
        r == same_name(x@, lit@),
{
    if x.len() != lit.len() {
        return false;
    }
    let mut i: usize = 0;
    while i < x.len()
        invariant
            x@.len() == lit@.len(),
            i <= x@.len(),
            forall|j: int| 0 <= j < i ==> lower(#[trigger] x@[j]) == lit@[j],
        decreases x@.len() - i,
    {
        let b = x[i];
        let l = if 65 <= b && b <= 90 { b + 32 } else { b };
        if l != lit[i] {
            return false;
        }
        i = i + 1;
    }
    true
}

fn unknown_command() -> (e: Error)
    ensures
        e matches Error::Other(_),
{
    Error::Other("ERR unknown command".to_owned())
}

proof fn lemma_rest(it: &FrameIter)
    requires
        it.pos <= it.frames@.len(),
    ensures
        it.rest().len() == it.frames@.len() - it.pos,
        forall|i: int| 0 <= i < it.rest().len() ==> #[trigger] it.rest()[i] == it.frames@[it.pos + i]@,
        it.pos < it.frames@.len() ==> it.at() == Some(it.rest()[0]),
{
    lemma_frames_view_index(it.frames@);
}

impl Echo {
    /// Reads the argument of `ECHO` from the frames left.
    pub fn parse_frames(frames: &mut FrameIter) -> (r: Result<Echo, Error>)
        requires
            old(frames).pos <= old(frames).frames@.len(),
        ensures
            match echo_of(old(frames).rest()) {
                Some(b) => r matches Ok(e) && e.msg@ == b,
                None => r matches Err(Error::Other(_)),
            },
    {
        proof {
            lemma_rest(frames);
        }
        if frames.frames.len() - frames.pos != 1 {
            return Err(malformed());
        }
        match frames.next_bytes() {
            Ok(msg) => Ok(Echo { msg }),
            Err(_) => Err(malformed()),
        }
    }
}

impl Get {
    /// Reads the key of `GET` from the frames left.
    pub fn parse_frames(frames: &mut FrameIter) -> (r: Result<Get, Error>)
        requires
            old(frames).pos <= old(frames).frames@.len(),
        ensures
            match get_of(old(frames).rest()) {
                Some(k) => r matches Ok(g) && g.key@ == k,
                None => r matches Err(Error::Other(_)),
            },
    {
        proof {
            lemma_rest(frames);
        }
        if frames.frames.len() - frames.pos != 1 {
            return Err(malformed());
        }
        match frames.next_string() {
            Some(key) => Ok(Get { key }),
            None => Err(malformed()),
        }
    }
}

impl SetCmd {
    /// Reads the key, the value and the optional `PX ms` of `SET` from the
    /// frames left.
    pub fn parse_frames(frames: &mut FrameIter) -> (r: Result<SetCmd, Error>)
        requires
            old(frames).pos <= old(frames).frames@.len(),
        ensures
            match set_of(old(frames).rest()) {
                Some((k, b, ttl)) => r matches Ok(c) && c.key@ == k && c.value@ == b && c.expire == ttl,
                None => r matches Err(Error::Other(_)),
            },
    {
        let ghost args = frames.rest();
        proof {
            lemma_rest(frames);
        }
        let n = frames.frames.len() - frames.pos;
        if n != 2 && n != 4 {
            return Err(malformed());
        }
        let key = match frames.next_string() {
            Some(k) => k,
            None => return Err(malformed()),
        };
        proof {
            lemma_rest(frames);
            assert(frames.rest()[0] == args[1]);
        }
        let value = match frames.next_bytes() {
            Ok(b) => b,
            Err(_) => return Err(malformed()),
        };
        if n == 2 {
            return Ok(SetCmd { key, value, expire: None });
        }
        proof {
            lemma_rest(frames);
            assert(frames.rest()[0] == args[2]);
        }
        let opt = match frames.next_bytes() {
            Ok(b) => b,
            Err(_) => return Err(malformed()),
        };
        proof {
            lemma_rest(frames);
            assert(frames.rest()[0] == args[3]);
        }
        let ms = match frames.next_int() {
            Ok(x) => x,
            Err(_) => return Err(malformed()),
        };
        let px: [u8; 2] = [112, 120];
        assert(px@ =~= name_px());
        if !is_name(opt.as_slice(), px.as_slice()) {
            return Err(malformed());
        }
        Ok(SetCmd { key, value, expire: Some(ms) })
    }
}

impl Command {
    /// Reads the request that an array frame carries.
    pub fn from_frame(frame: Frame) -> (r: Result<Command, Error>)
        ensures
            match command_of(frame@) {
                Some(c) => r matches Ok(x) && x@ == c,
                None => r matches Err(Error::Other(_)),
            },
    {
        let frames = match frame {
            Frame::Array(v) => v,
            _ => return Err(malformed()),
        };
        if frames.len() == 0 {
            return Err(malformed());
        }
        let mut it = FrameIter { frames, pos: 0 };
        let ghost v = frames_view(it.frames@);
        proof {
            lemma_rest(&it);
            lemma_frames_view_index(it.frames@);
            assert(it.rest() =~= v);
        }
        let name = match it.next_bytes() {
            Ok(b) => b,
            Err(_) => return Err(malformed()),
        };
        proof {
            lemma_rest(&it);
            assert(it.rest() =~= v.subrange(1, v.len() as int));
        }
        let ping: [u8; 4] = [112, 105, 110, 103];
        let echo: [u8; 4] = [101, 99, 104, 111];
        let get: [u8; 3] = [103, 101, 116];
        let set: [u8; 3] = [115, 101, 116];
        assert(ping@ =~= name_ping());
        assert(echo@ =~= name_echo());
        assert(get@ =~= name_get());
        assert(set@ =~= name_set());
        if is_name(name.as_slice(), ping.as_slice()) {
            Ok(Command::Ping(Ping))
        } else if is_name(name.as_slice(), echo.as_slice()) {
            Ok(Command::Echo(Echo::parse_frames(&mut it)?))
        } else if is_name(name.as_slice(), get.as_slice()) {
            Ok(Command::Get(Get::parse_frames(&mut it)?))
        } else if is_name(name.as_slice(), set.as_slice()) {
            Ok(Command::SetCmd(SetCmd::parse_frames(&mut it)?))
        } else {
            Err(unknown_command())
        }
    }
}

/// A ttl shortened, where needed, so that its deadline fits in 64 bits.
pub open spec fn capped(now: u64, ttl: Option<u64>) -> Option<u64> {
    match ttl {
        Some(d) => Some(if d > u64::MAX - now { (u64::MAX - now) as u64 } else { d }),
        None => None,
    }
}

/// The reply to a request, on the store as it was.
pub open spec fn reply(c: CommandModel, m: Map<Seq<char>, EntryModel>) -> FrameModel {
    match c {
        CommandModel::Ping => FrameModel::Simple("PONG"@),
        CommandModel::Echo(b) => FrameModel::Bulk(b),
        CommandModel::Get(k) => match lookup(m, k) {
            Some(v) => FrameModel::Bulk(v),
            None => FrameModel::Null,
        },
        CommandModel::SetCmd(_, _, _) => FrameModel::Simple("OK"@),
    }
}

/// The store after a request made at `now`.
pub open spec fn effect(c: CommandModel, m: Map<Seq<char>, EntryModel>, now: u64) -> Map<Seq<char>, EntryModel> {
    match c {
        CommandModel::SetCmd(k, v, ttl) => after_set(m, k, v, deadline(now, capped(now, ttl))),
        _ => m,
    }
}

/// Whether a request made at `now` must wake the reaper.
pub open spec fn wakes(c: CommandModel, m: Map<Seq<char>, EntryModel>, now: u64) -> bool {
    match c {
        CommandModel::SetCmd(_, _, ttl) => wakes_reaper(m, deadline(now, capped(now, ttl))),
        _ => false,
    }
}

impl Ping {
    pub fn apply(&self) -> (r: Frame)
        ensures
            r@ == reply(CommandModel::Ping, Map::empty()),
    {
        Frame::Simple("PONG".to_owned())
    }
}

impl Echo {
    pub fn apply(&self) -> (r: Frame)
        ensures
            r@ == FrameModel::Bulk(self.msg@),
    {
        Frame::Bulk(vstd::slice::slice_to_vec(self.msg.as_slice()))
    }
}

impl Get {
    pub fn apply(&self, db: &State) -> (r: Frame)
        requires
            db.wf(),
        ensures
            r@ == reply(CommandModel::Get(self.key@), db@),
    {
        match db.get(self.key.as_str()) {
            Some(v) => Frame::Bulk(v),
            None => Frame::Null,
        }
    }
}

impl SetCmd {
    /// Stores the value at `now`; returns the reply and whether the reaper
    /// must be woken.
    pub fn apply(&self, db: &mut State, now: u64) -> (r: (Frame, bool))
        requires
            old(db).wf(),
        ensures
            final(db).wf(),
            final(db)@ == effect(CommandModel::SetCmd(self.key@, self.value@, self.expire), old(db)@, now),
            r.1 == wakes(CommandModel::SetCmd(self.key@, self.value@, self.expire), old(db)@, now),
            r.0@ == FrameModel::Simple("OK"@),
    {
        let ttl = match self.expire {
            Some(d) => Some(if d > u64::MAX - now { u64::MAX - now } else { d }),
            None => None,
        };
        let value = vstd::slice::slice_to_vec(self.value.as_slice());
        let notify = db.set(self.key.as_str(), value, ttl, now);
        (Frame::Simple("OK".to_owned()), notify)
    }
}

impl Command {
    /// Carries out the request at `now`; returns the reply and whether the
    /// reaper must be woken.
    pub fn apply(&self, db: &mut State, now: u64) -> (r: (Frame, bool))
        requires
            old(db).wf(),
        ensures
            final(db).wf(),
            final(db)@ == effect(self@, old(db)@, now),
            r.0@ == reply(self@, old(db)@),
            r.1 == wakes(self@, old(db)@, now),
    {
        match self {
            Command::Ping(p) => (p.apply(), false),
            Command::Echo(e) => (e.apply(), false),
            Command::SetCmd(s) => s.apply(db, now),
            Command::Get(g) => (g.apply(db), false),
        }
    }
}

/// The reply to one request frame at `now`, and whether the reaper must be
/// woken. A frame that carries no request known here gets an error reply and
/// leaves the store as it was.
pub fn respond(db: &mut State, request: Frame, now: u64) -> (r: (Frame, bool))
    requires
        old(db).wf(),
    ensures
        final(db).wf(),
        match command_of(request@) {
            Some(c) => final(db)@ == effect(c, old(db)@, now) && r.0@ == reply(c, old(db)@)
                && r.1 == wakes(c, old(db)@, now),
            None => final(db)@ == old(db)@ && r.0@ is Error && !r.1,
        },
{
    match Command::from_frame(request) {
        Ok(c) => c.apply(db, now),
        Err(e) => (Frame::Error(e.message()), false),
    }
}

} // verus!
