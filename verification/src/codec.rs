//! The wire codec: typed messages and their line form.
//!
//! A command goes out as one compact object `{"type":"cmd","cmd":…,"id":…,
//! "params":…}`; a line coming in is read as an event `{"type":…,"evt":…,
//! "id":…,"data":…}`. A line that echoes a command's own shape (`cmd` and
//! `params` in place of `evt` and `data`) is read the same way, so an echoed
//! command decodes to an event carrying the command's identifier.
use crate::errors::DaemonError;
use crate::json::{
    clone_json, enc, encode_json, fields_view, is_line_break, jview, jwf, lemma_enc_shape,
    lemma_enc_single_line, lemma_pv_enc, obj_find, obj_get, parse_json, pv, spec_parse_json,
    ws_end, JVal, Json,
};
use crate::text::{lit_chars, push_chars};
use vstd::prelude::*;

verus! {

/// An outbound command.
pub struct DaemonCommand {
    /// The fixed discriminator, `cmd`.
    pub msg_type: Vec<char>,
    /// The name of the requested operation.
    pub cmd: Vec<char>,
    /// The request identifier, generated fresh for every command.
    pub id: Vec<char>,
    /// The open payload.
    pub params: Json,
}

/// The model of an outbound command.
pub ghost struct CommandV {
    pub msg_type: Seq<char>,
    pub cmd: Seq<char>,
    pub id: Seq<char>,
    pub params: JVal,
}

impl View for DaemonCommand {
    type V = CommandV;

    open spec fn view(&self) -> CommandV {
        CommandV {
            msg_type: self.msg_type@,
            cmd: self.cmd@,
            id: self.id@,
            params: self.params@,
        }
    }
}

/// An inbound event.
pub struct DaemonEvent {
    /// The discriminator the line carried.
    pub msg_type: Vec<char>,
    /// The event or topic name.
    pub evt: Vec<char>,
    /// The identifier, present only when the event replies to a command.
    pub id: Option<Vec<char>>,
    /// The open payload.
    pub data: Json,
}

/// The model of an inbound event.
pub ghost struct EventV {
    pub msg_type: Seq<char>,
    pub evt: Seq<char>,
    pub id: Option<Seq<char>>,
    pub data: JVal,
}

impl View for DaemonEvent {
    type V = EventV;

    open spec fn view(&self) -> EventV {
        EventV {
            msg_type: self.msg_type@,
            evt: self.evt@,
            id: match self.id {
                Some(ref v) => Some(v@),
                None => None,
            },
            data: self.data@,
        }
    }
}

/// A character a request identifier may hold: hexadecimal digits and the
/// hyphen.
pub open spec fn is_id_char(c: char) -> bool {
    is_digit_or_lower_hex(c) || c == '-'
}

/// A lower-case hexadecimal digit.
pub open spec fn is_digit_or_lower_hex(c: char) -> bool {
    (('0' as u32) <= (c as u32) && (c as u32) <= ('9' as u32)) || (('a' as u32) <= (c as u32) && (c
        as u32) <= ('f' as u32))
}

/// A well-formed request identifier: the 36 hyphenated hexadecimal
/// characters of the generated form.
pub open spec fn id_wf(s: Seq<char>) -> bool {
    s.len() == 36 && forall|i: int| 0 <= i < s.len() ==> is_id_char(#[trigger] s[i])
}

/// Relies on `uuid::Uuid::new_v4` and its hyphenated text form: 36
/// characters, hexadecimal digits and hyphens, fresh for every call. Nothing
/// is assumed about which identifier comes back.
#[verifier::external_body]
fn fresh_request_id() -> (r: Vec<char>)
    ensures
        id_wf(r@),
{
    uuid::Uuid::new_v4().to_string().chars().collect()
}

impl DaemonCommand {
    /// A new command with a freshly generated identifier.
    pub fn new(cmd: Vec<char>, params: Json) -> (r: DaemonCommand)
        ensures
            r@.msg_type == "cmd"@,
            r@.cmd == cmd@,
            r@.params == params@,
            id_wf(r@.id),
    {
        DaemonCommand { msg_type: lit_chars("cmd"), cmd, id: fresh_request_id(), params }
    }

    /// A new command with the given identifier.
    pub fn with_id(cmd: Vec<char>, id: Vec<char>, params: Json) -> (r: DaemonCommand)
        ensures
            r@.msg_type == "cmd"@,
            r@.cmd == cmd@,
            r@.id == id@,
            r@.params == params@,
    {
        DaemonCommand { msg_type: lit_chars("cmd"), cmd, id, params }
    }
}

/// The fields of a command's line form, in order.
pub open spec fn command_fields(c: CommandV) -> Seq<(Seq<char>, JVal)> {
    seq![
        ("type"@, JVal::Str(c.msg_type)),
        ("cmd"@, JVal::Str(c.cmd)),
        ("id"@, JVal::Str(c.id)),
        ("params"@, c.params),
    ]
}

/// The line a command is sent as, without the terminator.
pub open spec fn spec_command_line(c: CommandV) -> Seq<char> {
    enc(JVal::Obj(command_fields(c)))
}

/// A copy of a character slice.
fn copy_chars(v: &[char]) -> (r: Vec<char>)
    ensures
        r@ == v@,
{
    let mut r: Vec<char> = Vec::new();
    push_chars(&mut r, v);
    r
}

/// Serializes a command to its single-line wire form (without the line
/// terminator).
pub fn encode_command(c: &DaemonCommand) -> (r: Vec<char>)
    ensures
        r@ == spec_command_line(c@),
{
    let mut fs: Vec<(Vec<char>, Json)> = Vec::new();
    let f0 = (lit_chars("type"), Json::Str(copy_chars(c.msg_type.as_slice())));
    let f1 = (lit_chars("cmd"), Json::Str(copy_chars(c.cmd.as_slice())));
    let f2 = (lit_chars("id"), Json::Str(copy_chars(c.id.as_slice())));
    let f3 = (lit_chars("params"), clone_json(&c.params));
    let ghost g0 = f0;
    let ghost g1 = f1;
    let ghost g2 = f2;
    let ghost g3 = f3;
    fs.push(f0);
    fs.push(f1);
    fs.push(f2);
    fs.push(f3);
    let obj = Json::Obj(fs);
    proof {
        let got = obj@->Obj_0;
        assert(fs@.len() == 4);
        assert(fs@[0] == g0 && fs@[1] == g1 && fs@[2] == g2 && fs@[3] == g3);
        assert(got[0] == (g0.0@, jview(g0.1)));
        assert(jview(g0.1) == JVal::Str(c@.msg_type));
        assert(got[1] == (g1.0@, jview(g1.1)));
        assert(jview(g1.1) == JVal::Str(c@.cmd));
        assert(got[2] == (g2.0@, jview(g2.1)));
        assert(jview(g2.1) == JVal::Str(c@.id));
        assert(got[3] == (g3.0@, jview(g3.1)));
        assert(got =~= command_fields(c@));
    }
    encode_json(&obj)
}

/// The event a parsed value describes: an object whose `type` is a string,
/// whose name is its `evt` field (or, for an echoed command, its `cmd`
/// field), whose payload is its `data` field (or `params`), and whose `id`,
/// if present and not null, is a string.
pub open spec fn spec_event_of(v: JVal) -> Option<EventV> {
    match v {
        JVal::Obj(fs) => match obj_get(fs, "type"@) {
            Some(JVal::Str(t)) => {
                let name = if obj_get(fs, "evt"@) is Some {
                    obj_get(fs, "evt"@)
                } else {
                    obj_get(fs, "cmd"@)
                };
                match name {
                    Some(JVal::Str(nm)) => {
                        let data = if obj_get(fs, "data"@) is Some {
                            obj_get(fs, "data"@)
                        } else {
                            obj_get(fs, "params"@)
                        };
                        match data {
                            Some(d) => match obj_get(fs, "id"@) {
                                None => Some(
                                    EventV { msg_type: t, evt: nm, id: None, data: d },
                                ),
                                Some(JVal::Null) => Some(
                                    EventV { msg_type: t, evt: nm, id: None, data: d },
                                ),
                                Some(JVal::Str(idv)) => Some(
                                    EventV { msg_type: t, evt: nm, id: Some(idv), data: d },
                                ),
                                Some(_) => None,
                            },
                            None => None,
                        }
                    },
                    _ => None,
                }
            },
            _ => None,
        },
        _ => None,
    }
}

/// The event a whole line decodes to.
pub open spec fn spec_decode_event(s: Seq<char>) -> Option<EventV> {
    match spec_parse_json(s) {
        Some(v) => spec_event_of(v),
        None => None,
    }
}

/// Parses one line into an event. Fails with `JsonError` exactly when the
/// line is not a well-formed value of the event shape.
pub fn decode_event(line: &[char]) -> (r: Result<DaemonEvent, DaemonError>)
    ensures
        match spec_decode_event(line@) {
            Some(ev) => r matches Ok(e) && e@ == ev,
            None => r == Err::<DaemonEvent, DaemonError>(DaemonError::JsonError),
        },
{
    let parsed = match parse_json(line) {
        Some(j) => j,
        None => {
            return Err(DaemonError::JsonError);
        },
    };
    let fs = match parsed {
        Json::Obj(fs) => fs,
        _ => {
            return Err(DaemonError::JsonError);
        },
    };
    let ghost fsv = fields_view(fs);
    let key_type = lit_chars("type");
    let msg_type = match obj_find(&fs, key_type.as_slice()) {
        Some(ix) => match &fs[ix].1 {
            Json::Str(t) => copy_chars(t.as_slice()),
            _ => {
                return Err(DaemonError::JsonError);
            },
        },
        None => {
            return Err(DaemonError::JsonError);
        },
    };
    let key_evt = lit_chars("evt");
    let key_cmd = lit_chars("cmd");
    let name_ix = match obj_find(&fs, key_evt.as_slice()) {
        Some(ix) => Some(ix),
        None => obj_find(&fs, key_cmd.as_slice()),
    };
    let evt = match name_ix {
        Some(ix) => match &fs[ix].1 {
            Json::Str(nm) => copy_chars(nm.as_slice()),
            _ => {
                return Err(DaemonError::JsonError);
            },
        },
        None => {
            return Err(DaemonError::JsonError);
        },
    };
    let key_data = lit_chars("data");
    let key_params = lit_chars("params");
    let data_ix = match obj_find(&fs, key_data.as_slice()) {
        Some(ix) => Some(ix),
        None => obj_find(&fs, key_params.as_slice()),
    };
    let data = match data_ix {
        Some(ix) => clone_json(&fs[ix].1),
        None => {
            return Err(DaemonError::JsonError);
        },
    };
    let key_id = lit_chars("id");
    let id = match obj_find(&fs, key_id.as_slice()) {
        None => None,
        Some(ix) => match &fs[ix].1 {
            Json::Null => None,
            Json::Str(idv) => Some(copy_chars(idv.as_slice())),
            _ => {
                return Err(DaemonError::JsonError);
            },
        },
    };
    Ok(DaemonEvent { msg_type, evt, id, data })
}


/// The text the standard base64 alphabet encodes `bytes` to. Relies on
/// `base64::engine::general_purpose::STANDARD`; the result is a function of
/// the bytes alone.
pub uninterp spec fn base64_of(bytes: Seq<u8>) -> Seq<char>;

/// Relies on `base64::Engine::encode` with the standard padded alphabet:
/// four output characters for every started group of three input bytes.
#[verifier::external_body]
fn base64_encode(bytes: &Vec<u8>) -> (r: Vec<char>)
    ensures
        r@ == base64_of(bytes@),
        r@.len() == 4 * ((bytes@.len() + 2) / 3),
{
    base64::Engine::encode(&base64::engine::general_purpose::STANDARD, bytes.as_slice())
        .chars()
        .collect()
}

/// The parameter object shared by the connection-opening requests: an
/// address, a storage path (empty when not given), and the passphrase flag
/// (on by default).
pub open spec fn spec_connect_params(
    addr: Seq<char>,
    storage_path: Option<Vec<char>>,
    no_passphrase: Option<bool>,
) -> JVal {
    JVal::Obj(
        seq![
            ("addr"@, JVal::Str(addr)),
            (
                "storage_path"@,
                JVal::Str(
                    match storage_path {
                        Some(p) => p@,
                        None => Seq::empty(),
                    },
                ),
            ),
            (
                "db_no_passphrase"@,
                JVal::Bool(
                    match no_passphrase {
                        Some(b) => b,
                        None => true,
                    },
                ),
            ),
        ],
    )
}

/// The parameter object of the connection-opening requests.
fn connect_params(
    addr: Vec<char>,
    storage_path: Option<Vec<char>>,
    no_passphrase: Option<bool>,
) -> (r: Json)
    ensures
        r@ == spec_connect_params(addr@, storage_path, no_passphrase),
{
    let ghost gsp = storage_path;
    let ghost gnp = no_passphrase;
    let ghost gaddr = addr@;
    let sp = match storage_path {
        Some(p) => p,
        None => Vec::new(),
    };
    let np = match no_passphrase {
        Some(b) => b,
        None => true,
    };
    let mut fs: Vec<(Vec<char>, Json)> = Vec::new();
    let f0 = (lit_chars("addr"), Json::Str(addr));
    let f1 = (lit_chars("storage_path"), Json::Str(sp));
    let f2 = (lit_chars("db_no_passphrase"), Json::Bool(np));
    let ghost g0 = f0;
    let ghost g1 = f1;
    let ghost g2 = f2;
    fs.push(f0);
    fs.push(f1);
    fs.push(f2);
    let r = Json::Obj(fs);
    proof {
        let got = r@->Obj_0;
        assert(fs@[0] == g0 && fs@[1] == g1 && fs@[2] == g2);
        assert(got[0] == (g0.0@, jview(g0.1)));
        assert(got[1] == (g1.0@, jview(g1.1)));
        assert(got[2] == (g2.0@, jview(g2.1)));
        assert(jview(g0.1) == JVal::Str(gaddr));
        assert(got =~= spec_connect_params(gaddr, gsp, gnp)->Obj_0);
    }
    r
}

/// The request that starts a listening server.
pub fn start_server_command(
    addr: Vec<char>,
    storage_path: Option<Vec<char>>,
    no_passphrase: Option<bool>,
) -> (r: DaemonCommand)
    ensures
        r@.msg_type == "cmd"@,
        r@.cmd == "start_server"@,
        r@.params == spec_connect_params(addr@, storage_path, no_passphrase),
        id_wf(r@.id),
{
    DaemonCommand::new(lit_chars("start_server"), connect_params(addr, storage_path, no_passphrase))
}

/// The request that dials a remote server.
pub fn dial_command(
    addr: Vec<char>,
    storage_path: Option<Vec<char>>,
    no_passphrase: Option<bool>,
) -> (r: DaemonCommand)
    ensures
        r@.msg_type == "cmd"@,
        r@.cmd == "dial"@,
        r@.params == spec_connect_params(addr@, storage_path, no_passphrase),
        id_wf(r@.id),
{
    DaemonCommand::new(lit_chars("dial"), connect_params(addr, storage_path, no_passphrase))
}

/// The request that sends `message` on a session, with the payload carried
/// in the standard base64 form.
pub fn send_message_command(session_id: Vec<char>, message: Vec<u8>) -> (r: DaemonCommand)
    ensures
        r@.msg_type == "cmd"@,
        r@.cmd == "send_message"@,
        r@.params == JVal::Obj(
            seq![
                ("session_id"@, JVal::Str(session_id@)),
                ("data_base64"@, JVal::Str(base64_of(message@))),
            ],
        ),
        id_wf(r@.id),
{
    let ghost gsid = session_id@;
    let ghost gmsg = message@;
    let encoded = base64_encode(&message);
    let mut fs: Vec<(Vec<char>, Json)> = Vec::new();
    let f0 = (lit_chars("session_id"), Json::Str(session_id));
    let f1 = (lit_chars("data_base64"), Json::Str(encoded));
    let ghost g0 = f0;
    let ghost g1 = f1;
    fs.push(f0);
    fs.push(f1);
    let params = Json::Obj(fs);
    proof {
        let got = params@->Obj_0;
        assert(fs@[0] == g0 && fs@[1] == g1);
        assert(got[0] == (g0.0@, jview(g0.1)));
        assert(got[1] == (g1.0@, jview(g1.1)));
        assert(got =~= seq![
            ("session_id"@, JVal::Str(gsid)),
            ("data_base64"@, JVal::Str(base64_of(gmsg))),
        ]);
    }
    DaemonCommand::new(lit_chars("send_message"), params)
}

/// The request that lists the active sessions.
pub fn list_sessions_command() -> (r: DaemonCommand)
    ensures
        r@.msg_type == "cmd"@,
        r@.cmd == "list_sessions"@,
        r@.params == JVal::Obj(Seq::<(Seq<char>, JVal)>::empty()),
        id_wf(r@.id),
{
    let params = Json::Obj(Vec::new());
    proof {
        assert(params@->Obj_0 =~= Seq::<(Seq<char>, JVal)>::empty());
    }
    DaemonCommand::new(lit_chars("list_sessions"), params)
}

/// The request that closes one session.
pub fn close_session_command(session_id: Vec<char>) -> (r: DaemonCommand)
    ensures
        r@.msg_type == "cmd"@,
        r@.cmd == "close_session"@,
        r@.params == JVal::Obj(seq![("session_id"@, JVal::Str(session_id@))]),
        id_wf(r@.id),
{
    let ghost gsid = session_id@;
    let mut fs: Vec<(Vec<char>, Json)> = Vec::new();
    let f0 = (lit_chars("session_id"), Json::Str(session_id));
    let ghost g0 = f0;
    fs.push(f0);
    let params = Json::Obj(fs);
    proof {
        let got = params@->Obj_0;
        assert(fs@[0] == g0);
        assert(got[0] == (g0.0@, jview(g0.1)));
        assert(got =~= seq![("session_id"@, JVal::Str(gsid))]);
    }
    DaemonCommand::new(lit_chars("close_session"), params)
}

/// The graceful-shutdown request, with an empty payload.
pub fn shutdown_command() -> (r: DaemonCommand)
    ensures
        r@.msg_type == "cmd"@,
        r@.cmd == "shutdown"@,
        r@.params == JVal::Obj(Seq::<(Seq<char>, JVal)>::empty()),
        id_wf(r@.id),
{
    let params = Json::Obj(Vec::new());
    proof {
        assert(params@->Obj_0 =~= Seq::<(Seq<char>, JVal)>::empty());
    }
    DaemonCommand::new(lit_chars("shutdown"), params)
}

/// A copy of an event.
pub fn clone_event(e: &DaemonEvent) -> (r: DaemonEvent)
    ensures
        r@ == e@,
{
    DaemonEvent {
        msg_type: copy_chars(e.msg_type.as_slice()),
        evt: copy_chars(e.evt.as_slice()),
        id: match &e.id {
            Some(v) => Some(copy_chars(v.as_slice())),
            None => None,
        },
        data: clone_json(&e.data),
    }
}


/// Round-trip correlation identity: the line a command is encoded to
/// decodes back to an event that bears the command's identifier, its name,
/// and its payload. A daemon that echoes a command's identifier verbatim
/// therefore resolves exactly the caller that sent it.
pub proof fn lemma_command_round_trip(c: CommandV)
    requires
        jwf(c.params),
    ensures
        spec_decode_event(spec_command_line(c)) == Some(
            EventV { msg_type: c.msg_type, evt: c.cmd, id: Some(c.id), data: c.params },
        ),
{
    let line = spec_command_line(c);
    let fs = command_fields(c);
    let obj = JVal::Obj(fs);
    assert forall|k: int| 0 <= k < fs.len() implies jwf((#[trigger] fs[k]).1) by {
        if k == 0 || k == 1 || k == 2 {
            assert(fs[k].1 is Str);
        } else {
            assert(fs[k].1 == c.params);
        }
    }
    assert(jwf(obj));
    lemma_enc_shape(obj);
    let f = (2 * line.len() + 2) as nat;
    assert(line.subrange(0, line.len() as int) =~= enc(obj));
    lemma_pv_enc(line, 0, obj, f);
    assert(pv(line, 0, f) == Some((obj, line.len() as int)));
    assert(ws_end(line, line.len() as int) == line.len());
    assert(spec_parse_json(line) == Some(obj));
    reveal_strlit("type");
    reveal_strlit("cmd");
    reveal_strlit("id");
    reveal_strlit("params");
    reveal_strlit("evt");
    reveal_strlit("data");
    let fs1 = fs.drop_first();
    let fs2 = fs1.drop_first();
    let fs3 = fs2.drop_first();
    assert(fs1 =~= seq![
        ("cmd"@, JVal::Str(c.cmd)),
        ("id"@, JVal::Str(c.id)),
        ("params"@, c.params),
    ]);
    assert(fs2 =~= seq![("id"@, JVal::Str(c.id)), ("params"@, c.params)]);
    assert(fs3 =~= seq![("params"@, c.params)]);
    assert(fs3.drop_first() =~= Seq::<(Seq<char>, JVal)>::empty());
    assert(obj_get(fs, "type"@) == Some(JVal::Str(c.msg_type)));
    assert("type"@.len() == 4 && "evt"@.len() == 3 && "cmd"@.len() == 3 && "id"@.len() == 2
        && "params"@.len() == 6 && "data"@.len() == 4);
    assert("cmd"@[0] == 'c' && "evt"@[0] == 'e');
    assert("type"@[0] == 't' && "data"@[0] == 'd');
    assert("type"@ != "evt"@ && "cmd"@ != "evt"@ && "id"@ != "evt"@ && "params"@ != "evt"@);
    assert(obj_get(fs, "evt"@) == obj_get(fs1, "evt"@));
    assert(obj_get(fs1, "evt"@) == obj_get(fs2, "evt"@));
    assert(obj_get(fs2, "evt"@) == obj_get(fs3, "evt"@));
    assert(obj_get(fs3, "evt"@) == obj_get(fs3.drop_first(), "evt"@));
    assert(obj_get(fs, "evt"@) is None);
    assert("type"@ != "cmd"@);
    assert(obj_get(fs, "cmd"@) == obj_get(fs1, "cmd"@));
    assert(obj_get(fs, "cmd"@) == Some(JVal::Str(c.cmd)));
    assert("type"@ != "data"@ && "cmd"@ != "data"@ && "id"@ != "data"@ && "params"@ != "data"@);
    assert(obj_get(fs, "data"@) == obj_get(fs1, "data"@));
    assert(obj_get(fs1, "data"@) == obj_get(fs2, "data"@));
    assert(obj_get(fs2, "data"@) == obj_get(fs3, "data"@));
    assert(obj_get(fs3, "data"@) == obj_get(fs3.drop_first(), "data"@));
    assert(obj_get(fs, "data"@) is None);
    assert("type"@ != "params"@ && "cmd"@ != "params"@ && "id"@ != "params"@);
    assert(obj_get(fs, "params"@) == obj_get(fs1, "params"@));
    assert(obj_get(fs1, "params"@) == obj_get(fs2, "params"@));
    assert(obj_get(fs2, "params"@) == obj_get(fs3, "params"@));
    assert(obj_get(fs, "params"@) == Some(c.params));
    assert("type"@ != "id"@ && "cmd"@ != "id"@);
    assert(obj_get(fs, "id"@) == obj_get(fs1, "id"@));
    assert(obj_get(fs1, "id"@) == obj_get(fs2, "id"@));
    assert(obj_get(fs, "id"@) == Some(JVal::Str(c.id)));
    assert(spec_event_of(obj) == Some(
        EventV { msg_type: c.msg_type, evt: c.cmd, id: Some(c.id), data: c.params },
    ));
}


/// A command encodes to a single line: its wire form holds no line break,
/// so writing it followed by the terminator keeps the line-delimited
/// framing intact.
pub proof fn lemma_command_line_single_line(c: CommandV)
    requires
        jwf(c.params),
    ensures
        forall|k: int|
            0 <= k < spec_command_line(c).len() ==> !is_line_break(
                #[trigger] spec_command_line(c)[k],
            ),
{
    let fs = command_fields(c);
    let obj = JVal::Obj(fs);
    assert forall|k: int| 0 <= k < fs.len() implies jwf((#[trigger] fs[k]).1) by {
        if k == 0 || k == 1 || k == 2 {
            assert(fs[k].1 is Str);
        } else {
            assert(fs[k].1 == c.params);
        }
    }
    assert(jwf(obj));
    lemma_enc_single_line(obj);
}

} // verus!
