use vstd::prelude::*;
use vstd::string::StringSliceAdditionalSpecFns;

use crate::error::ProtoError;
use crate::nbt::{named_tag_bytes, NamedTag};
use crate::packet::PacketBuilder;
use crate::protocol::{be_bytes, spec_frame, spec_read_string, spec_read_varint_r, string_field};
use crate::varint::{u32_repr, varint_bytes_of};

verus! {

/// One connection's mutable state: the protocol phase as the raw value the
/// handshake delivered, and the username claimed at login.
pub struct State {
    pub state: i32,
    pub username: Option<Vec<u8>>,
}

/// The mathematical view of a session.
pub struct SpecState {
    pub state: int,
    pub username: Option<Seq<u8>>,
}

impl View for State {
    type V = SpecState;

    open spec fn view(&self) -> SpecState {
        SpecState {
            state: self.state as int,
            username: match self.username {
                Some(u) => Some(u@),
                None => None,
            },
        }
    }
}

/// What the session asks of its driver after one packet: send frames and
/// keep reading; send frames and then put one question to the credential
/// store; or send a disconnect frame and end the connection.
#[derive(Debug, PartialEq)]
pub enum Outcome {
    /// Frames to write, in order.
    Continue(Vec<Vec<u8>>),
    /// Write the frames, then ask whether the named user exists and hand the
    /// answer to `handle_exists`.
    QueryExists(Vec<Vec<u8>>, Vec<u8>),
    /// Ask `authenticate(username, password)` and hand the answer to
    /// `handle_auth`.
    QueryAuth(Vec<u8>, Vec<u8>),
    /// Ask `register(username, password)` and hand the answer to
    /// `handle_register`.
    QueryRegister(Vec<u8>, Vec<u8>),
    /// Write the disconnect frame and terminate the session.
    Kick(Vec<u8>),
}

/// The mathematical view of an `Outcome`.
pub enum SpecOutcome {
    Continue(Seq<Seq<u8>>),
    QueryExists(Seq<Seq<u8>>, Seq<u8>),
    QueryAuth(Seq<u8>, Seq<u8>),
    QueryRegister(Seq<u8>, Seq<u8>),
    Kick(Seq<u8>),
}

impl View for Outcome {
    type V = SpecOutcome;

    open spec fn view(&self) -> SpecOutcome {
        match self {
            Outcome::Continue(frames) => SpecOutcome::Continue(frames.deep_view()),
            Outcome::QueryExists(frames, u) => SpecOutcome::QueryExists(frames.deep_view(), u@),
            Outcome::QueryAuth(u, p) => SpecOutcome::QueryAuth(u@, p@),
            Outcome::QueryRegister(u, p) => SpecOutcome::QueryRegister(u@, p@),
            Outcome::Kick(frame) => SpecOutcome::Kick(frame@),
        }
    }
}

/// A reason wrapped as the chat-formatted JSON document the client displays.
pub open spec fn chat_text(reason: Seq<u8>) -> Seq<u8> {
    ("{\"text\":\"").spec_bytes() + reason + ("\"}").spec_bytes()
}

/// The disconnect frame for a reason: packet 0x19 carrying the chat JSON as
/// one string field.
pub open spec fn spec_kick_frame(reason: Seq<u8>) -> Seq<u8> {
    spec_frame(0x19, string_field(chat_text(reason)))
}

/// Builds the disconnect frame carrying `reason`. Always the last write of a
/// session.
pub fn kick(reason: &str) -> (r: Vec<u8>)
    requires
        reason@.len() <= 0x1fff_0000,
    ensures
        r@ == spec_kick_frame(reason.spec_bytes()),
{
    proof {
        reveal_strlit("{\"text\":\"");
        reveal_strlit("\"}");
        crate::text::lemma_encode_utf8_len(("{\"text\":\"")@);
        crate::text::lemma_encode_utf8_len(("\"}")@);
        crate::text::lemma_encode_utf8_len(reason@);
    }
    let open_part = "{\"text\":\"";
    let close_part = "\"}";
    let builder = PacketBuilder::new(0x19);
    let mut payload: Vec<u8> = Vec::new();
    let ob = open_part.as_bytes();
    let rb = reason.as_bytes();
    let cb = close_part.as_bytes();
    let mut i: usize = 0;
    while i < ob.len()
        invariant
            i <= ob@.len(),
            payload@ == ob@.subrange(0, i as int),
        decreases ob@.len() - i,
    {
        payload.push(ob[i]);
        i = i + 1;
    }
    assert(ob@.subrange(0, ob@.len() as int) =~= ob@);
    let mut i: usize = 0;
    while i < rb.len()
        invariant
            i <= rb@.len(),
            payload@ == ob@ + rb@.subrange(0, i as int),
        decreases rb@.len() - i,
    {
        payload.push(rb[i]);
        i = i + 1;
    }
    assert(rb@.subrange(0, rb@.len() as int) =~= rb@);
    let mut i: usize = 0;
    while i < cb.len()
        invariant
            i <= cb@.len(),
            payload@ == ob@ + rb@ + cb@.subrange(0, i as int),
        decreases cb@.len() - i,
    {
        payload.push(cb[i]);
        i = i + 1;
    }
    assert(cb@.subrange(0, cb@.len() as int) =~= cb@);
    proof {
        assert(payload@ =~= chat_text(reason.spec_bytes()));
    }
    let out = builder.with_string_bytes(payload.as_slice()).build();
    proof {
        assert(Seq::<u8>::empty() + string_field(chat_text(reason.spec_bytes())) =~= string_field(
            chat_text(reason.spec_bytes()),
        ));
    }
    out
}

/// The proxy hand-off message: a plugin message on channel "BungeeCord" whose
/// sub-payload frames "Connect" and the backend name "main".
pub open spec fn spec_bungee_frame() -> Seq<u8> {
    spec_frame(
        0x16,
        string_field(("BungeeCord").spec_bytes()) + seq![0u8, 7u8] + ("Connect").spec_bytes()
            + seq![0u8, 4u8] + ("main").spec_bytes(),
    )
}

/// Builds the proxy hand-off plugin message.
pub fn bungee_frame() -> (r: Vec<u8>)
    ensures
        r@ == spec_bungee_frame(),
{
    proof {
        reveal_strlit("BungeeCord");
        reveal_strlit("Connect");
        reveal_strlit("main");
        crate::text::lemma_encode_utf8_len(("BungeeCord")@);
        crate::text::lemma_encode_utf8_len(("Connect")@);
        crate::text::lemma_encode_utf8_len(("main")@);
    }
    let b = PacketBuilder::new(0x16)
        .with_string("BungeeCord")
        .with_u8(0)
        .with_u8(7)
        .with_raw_bytes("Connect".as_bytes())
        .with_u8(0)
        .with_u8(4)
        .with_raw_bytes("main".as_bytes());
    proof {
        assert(b.buffer@ =~= string_field(("BungeeCord").spec_bytes()) + seq![0u8, 7u8] + (
        "Connect").spec_bytes() + seq![0u8, 4u8] + ("main").spec_bytes());
    }
    b.build()
}

/// Bridges the element views of a frame list to its deep view.
pub proof fn lemma_frames_deep_view(frames: Vec<Vec<u8>>)
    ensures
        frames.deep_view().len() == frames@.len(),
        forall|i: int| 0 <= i < frames@.len() ==> frames.deep_view()[i] == frames@[i]@,
{
    assert forall|i: int| 0 <= i < frames@.len() implies frames.deep_view()[i] == frames@[i]@ by {
        assert(frames@[i].deep_view() =~= frames@[i]@);
    }
}

/// The system message directing a fresh player to register, as sent after the
/// login sequence.
pub open spec fn spec_register_prompt() -> Seq<u8> {
    spec_frame(0x5d, string_field(("{\"text\":\"/register [password] [password]\"}").spec_bytes()))
}

/// The system message directing a known player to log in.
pub open spec fn spec_login_prompt() -> Seq<u8> {
    spec_frame(0x5d, string_field(("{\"text\":\"/login [password]\"}").spec_bytes()))
}

pub open spec fn db_error_reason() -> Seq<u8> {
    ("Database error. Please contact one of the admins.").spec_bytes()
}

/// What follows the credential store's answer to the existence query put
/// after the login sequence: a register or login prompt, or a kick when the
/// store failed.
pub open spec fn spec_handle_exists(found: Option<bool>) -> SpecOutcome {
    match found {
        Some(false) => SpecOutcome::Continue(seq![spec_register_prompt()]),
        Some(true) => SpecOutcome::Continue(seq![spec_login_prompt()]),
        None => SpecOutcome::Kick(spec_kick_frame(db_error_reason())),
    }
}

/// Reacts to the store's answer about username existence; `None` stands for
/// a store failure.
pub fn handle_exists(found: Option<bool>) -> (r: Outcome)
    ensures
        r@ == spec_handle_exists(found),
{
    match found {
        Some(false) => {
            proof {
                reveal_strlit("{\"text\":\"/register [password] [password]\"}");
                crate::text::lemma_encode_utf8_len(
                    ("{\"text\":\"/register [password] [password]\"}")@,
                );
            }
            let f = PacketBuilder::new(0x5d).with_string(
                "{\"text\":\"/register [password] [password]\"}",
            ).build();
            let mut frames: Vec<Vec<u8>> = Vec::new();
            frames.push(f);
            proof {
                assert(Seq::<u8>::empty() + string_field(
                    ("{\"text\":\"/register [password] [password]\"}").spec_bytes(),
                ) =~= string_field(("{\"text\":\"/register [password] [password]\"}").spec_bytes()));
                lemma_frames_deep_view(frames);
                assert(frames.deep_view() =~= seq![spec_register_prompt()]);
            }
            Outcome::Continue(frames)
        },
        Some(true) => {
            proof {
                reveal_strlit("{\"text\":\"/login [password]\"}");
                crate::text::lemma_encode_utf8_len(("{\"text\":\"/login [password]\"}")@);
            }
            let f = PacketBuilder::new(0x5d).with_string("{\"text\":\"/login [password]\"}").build();
            let mut frames: Vec<Vec<u8>> = Vec::new();
            frames.push(f);
            proof {
                assert(Seq::<u8>::empty() + string_field(
                    ("{\"text\":\"/login [password]\"}").spec_bytes(),
                ) =~= string_field(("{\"text\":\"/login [password]\"}").spec_bytes()));
                lemma_frames_deep_view(frames);
                assert(frames.deep_view() =~= seq![spec_login_prompt()]);
            }
            Outcome::Continue(frames)
        },
        None => {
            proof {
                reveal_strlit("Database error. Please contact one of the admins.");
            }
            Outcome::Kick(kick("Database error. Please contact one of the admins."))
        },
    }
}

/// What follows the store's answer to `authenticate`: the proxy hand-off on
/// success, a kick naming the failure otherwise.
pub open spec fn spec_handle_auth(ok: Option<bool>) -> SpecOutcome {
    match ok {
        Some(true) => SpecOutcome::Continue(seq![spec_bungee_frame()]),
        Some(false) => SpecOutcome::Kick(
            spec_kick_frame(("Invalid password or user not registered.").spec_bytes()),
        ),
        None => SpecOutcome::Kick(spec_kick_frame(db_error_reason())),
    }
}

pub fn handle_auth(ok: Option<bool>) -> (r: Outcome)
    ensures
        r@ == spec_handle_auth(ok),
{
    match ok {
        Some(true) => {
            let mut frames: Vec<Vec<u8>> = Vec::new();
            frames.push(bungee_frame());
            proof {
                lemma_frames_deep_view(frames);
                assert(frames.deep_view() =~= seq![spec_bungee_frame()]);
            }
            Outcome::Continue(frames)
        },
        Some(false) => {
            proof {
                reveal_strlit("Invalid password or user not registered.");
            }
            Outcome::Kick(kick("Invalid password or user not registered."))
        },
        None => {
            proof {
                reveal_strlit("Database error. Please contact one of the admins.");
            }
            Outcome::Kick(kick("Database error. Please contact one of the admins."))
        },
    }
}

/// What follows the store's answer to `register`: the proxy hand-off on
/// success, a kick naming the failure otherwise.
pub open spec fn spec_handle_register(ok: Option<bool>) -> SpecOutcome {
    match ok {
        Some(true) => SpecOutcome::Continue(seq![spec_bungee_frame()]),
        Some(false) => SpecOutcome::Kick(
            spec_kick_frame(("This user is already registered.").spec_bytes()),
        ),
        None => SpecOutcome::Kick(spec_kick_frame(db_error_reason())),
    }
}

pub fn handle_register(ok: Option<bool>) -> (r: Outcome)
    ensures
        r@ == spec_handle_register(ok),
{
    match ok {
        Some(true) => {
            let mut frames: Vec<Vec<u8>> = Vec::new();
            frames.push(bungee_frame());
            proof {
                lemma_frames_deep_view(frames);
                assert(frames.deep_view() =~= seq![spec_bungee_frame()]);
            }
            Outcome::Continue(frames)
        },
        Some(false) => {
            proof {
                reveal_strlit("This user is already registered.");
            }
            Outcome::Kick(kick("This user is already registered."))
        },
        None => {
            proof {
                reveal_strlit("Database error. Please contact one of the admins.");
            }
            Outcome::Kick(kick("Database error. Please contact one of the admins."))
        },
    }
}

/// Splitting on a single space, separator-delimited: empty input yields one
/// empty token, and adjacent separators yield empty tokens between them.
pub open spec fn split_spaces(s: Seq<u8>) -> Seq<Seq<u8>>
    decreases s.len(),
{
    if s.len() == 0 {
        seq![Seq::<u8>::empty()]
    } else if s[0] == 0x20 {
        seq![Seq::<u8>::empty()] + split_spaces(s.drop_first())
    } else {
        cons_first(seq![s[0]], split_spaces(s.drop_first()))
    }
}

/// Prepends bytes to the first token of a non-empty token list.
pub open spec fn cons_first(p: Seq<u8>, tokens: Seq<Seq<u8>>) -> Seq<Seq<u8>> {
    seq![p + tokens[0]] + tokens.drop_first()
}

pub proof fn lemma_split_nonempty(s: Seq<u8>)
    ensures
        split_spaces(s).len() >= 1,
    decreases s.len(),
{
    if s.len() > 0 {
        lemma_split_nonempty(s.drop_first());
    }
}

/// Splits a command on spaces into its tokens.
pub fn split_spaces_exec(s: &[u8]) -> (r: Vec<Vec<u8>>)
    ensures
        r.deep_view() == split_spaces(s@),
{
    let mut out: Vec<Vec<u8>> = Vec::new();
    let mut cur: Vec<u8> = Vec::new();
    let mut i: usize = 0;
    proof {
        lemma_split_nonempty(s@);
        assert(s@.subrange(0, s@.len() as int) =~= s@);
        assert(out.deep_view() =~= Seq::<Seq<u8>>::empty());
        assert(cons_first(cur@, split_spaces(s@)) =~~= split_spaces(s@));
        assert(split_spaces(s@) =~~= out.deep_view() + cons_first(cur@, split_spaces(s@)));
    }
    while i < s.len()
        invariant
            i <= s@.len(),
            split_spaces(s@.subrange(i as int, s@.len() as int)).len() >= 1,
            split_spaces(s@) == out.deep_view() + cons_first(
                cur@,
                split_spaces(s@.subrange(i as int, s@.len() as int)),
            ),
        decreases s@.len() - i,
    {
        let ghost rest = s@.subrange(i as int, s@.len() as int);
        let ghost rest1 = s@.subrange(i + 1, s@.len() as int);
        proof {
            assert(rest.len() > 0);
            assert(rest[0] == s@[i as int]);
            assert(rest.drop_first() =~= rest1);
            lemma_split_nonempty(rest1);
        }
        if s[i] == 0x20 {
            proof {
                assert(split_spaces(rest) == seq![Seq::<u8>::empty()] + split_spaces(rest1));
                assert(cons_first(cur@, split_spaces(rest)) =~~= seq![cur@] + split_spaces(rest1));
                assert(cons_first(Seq::<u8>::empty(), split_spaces(rest1)) =~~= split_spaces(
                    rest1,
                ));
            }
            let ghost old_out = out.deep_view();
            out.push(cur);
            proof {
                lemma_frames_deep_view(out);
                assert(out.deep_view() =~= old_out.push(cur@));
                assert(out.deep_view() + cons_first(
                    Seq::<u8>::empty(),
                    split_spaces(rest1),
                ) =~~= old_out + (seq![cur@] + split_spaces(rest1)));
            }
            cur = Vec::new();
        } else {
            proof {
                assert(split_spaces(rest) == cons_first(seq![rest[0]], split_spaces(rest1)));
                assert(cons_first(cur@, split_spaces(rest)) =~~= cons_first(
                    cur@ + seq![rest[0]],
                    split_spaces(rest1),
                ));
                assert(cur@.push(s@[i as int]) =~= cur@ + seq![rest[0]]);
            }
            cur.push(s[i]);
        }
        i = i + 1;
    }
    proof {
        assert(s@.subrange(s@.len() as int, s@.len() as int) =~= Seq::<u8>::empty());
        assert(split_spaces(Seq::<u8>::empty()) == seq![Seq::<u8>::empty()]);
        assert(cons_first(cur@, seq![Seq::<u8>::empty()]) =~~= seq![cur@]);
    }
    let ghost old_out = out.deep_view();
    out.push(cur);
    proof {
        lemma_frames_deep_view(out);
        assert(out.deep_view() =~= old_out.push(cur@));
        assert(out.deep_view() =~= split_spaces(s@));
    }
    out
}

/// Login success: a zero UUID, the username, and an empty properties list.
pub open spec fn spec_login_success_frame(u: Seq<u8>) -> Seq<u8> {
    spec_frame(0x02, be_bytes(0, 16) + string_field(u) + varint_bytes_of(0))
}

/// The join/world-info packet: the dimension registry and a synthetic world
/// configuration (gamemode 3, one dimension, fixed view and simulation
/// distances).
pub open spec fn spec_join_frame(reg: NamedTag) -> Seq<u8> {
    spec_frame(
        0x25,
        be_bytes(0, 4) + seq![0u8, 3u8, 0xffu8] + varint_bytes_of(1) + string_field(
            ("minecraft:the_end").spec_bytes(),
        ) + named_tag_bytes(reg, true) + string_field(("minecraft:the_end").spec_bytes())
            + string_field(("minecraft:the_end").spec_bytes()) + be_bytes(0, 8) + varint_bytes_of(
            20,
        ) + varint_bytes_of(2) + varint_bytes_of(2) + seq![0u8, 0u8, 1u8, 0u8, 0u8],
    )
}

pub open spec fn spec_slot_frame() -> Seq<u8> {
    spec_frame(0x4a, seq![0u8])
}

pub open spec fn spec_recipes_frame() -> Seq<u8> {
    spec_frame(0x6a, varint_bytes_of(0))
}

pub open spec fn spec_tags_frame() -> Seq<u8> {
    spec_frame(0x6b, varint_bytes_of(0))
}

pub open spec fn spec_entity_event_frame() -> Seq<u8> {
    spec_frame(0x1a, be_bytes(0, 4) + seq![28u8])
}

/// Player-position synchronization at the origin with teleport id 42.
pub open spec fn spec_pos_sync_frame() -> Seq<u8> {
    spec_frame(
        0x39,
        be_bytes(0, 8) + be_bytes(0, 8) + be_bytes(0, 8) + be_bytes(0, 4) + be_bytes(0, 4)
            + seq![0u8] + varint_bytes_of(42) + seq![0u8],
    )
}

pub open spec fn spec_player_info_frame() -> Seq<u8> {
    spec_frame(0x37, varint_bytes_of(0) + varint_bytes_of(0))
}

pub open spec fn spec_center_chunk_frame() -> Seq<u8> {
    spec_frame(0x4b, varint_bytes_of(0) + varint_bytes_of(0))
}

/// One empty chunk section's wire bytes.
pub open spec fn section_bytes() -> Seq<u8> {
    seq![
        0u8,
        0u8,
        0u8,
        0u8,
        0u8,
        0x01u8,
        0x02u8,
        0x27u8,
        0x03u8,
        0x01u8,
        0xccu8,
        0xffu8,
        0xccu8,
        0xffu8,
        0xccu8,
        0xffu8,
        0xccu8,
        0xffu8,
    ]
}

/// `n` empty chunk sections in a row.
pub open spec fn chunk_sections(n: nat) -> Seq<u8>
    decreases n,
{
    if n == 0 {
        seq![]
    } else {
        chunk_sections((n - 1) as nat) + section_bytes()
    }
}

/// The minimal per-chunk height map: a root compound holding one
/// MOTION_BLOCKING long array of 36 zero entries.
pub open spec fn spec_heightmap_bytes() -> Seq<u8> {
    seq![10u8] + be_bytes(0, 2) + seq![12u8] + be_bytes(
        ("MOTION_BLOCKING").spec_bytes().len(),
        2,
    ) + ("MOTION_BLOCKING").spec_bytes() + be_bytes(36, 4) + crate::protocol::zero_bytes(288)
        + seq![0u8]
}

/// One synthetic empty chunk-data packet for grid cell (x, z), centered on
/// the origin: 24 empty sections and empty light bitsets.
pub open spec fn spec_chunk_frame(x: int, z: int) -> Seq<u8> {
    spec_frame(
        0x21,
        be_bytes(u32_repr((x - 2) as i32), 4) + be_bytes(u32_repr((z - 2) as i32), 4)
            + spec_heightmap_bytes() + varint_bytes_of(432) + chunk_sections(24) + varint_bytes_of(
            0,
        ) + seq![1u8] + varint_bytes_of(0) + varint_bytes_of(0) + varint_bytes_of(0)
            + varint_bytes_of(0) + varint_bytes_of(0) + varint_bytes_of(0),
    )
}

/// The scripted reply sequence to a login start, in its exact order: login
/// success, join/world info, held slot, empty recipes, empty tags, entity
/// event, position sync, empty player info, center chunk, the 5 by 5 chunk
/// grid, and the closing position sync.
pub open spec fn spec_login_burst(u: Seq<u8>, reg: NamedTag) -> Seq<Seq<u8>> {
    seq![
        spec_login_success_frame(u),
        spec_join_frame(reg),
        spec_slot_frame(),
        spec_recipes_frame(),
        spec_tags_frame(),
        spec_entity_event_frame(),
        spec_pos_sync_frame(),
        spec_player_info_frame(),
        spec_center_chunk_frame(),
    ] + Seq::new(25, |i: int| spec_chunk_frame(i / 5, i % 5)) + seq![spec_pos_sync_frame()]
}

/// Appends one empty chunk section.
fn push_section(out: &mut Vec<u8>) -> (unit: ())
    ensures
        final(out)@ == old(out)@ + section_bytes(),
{
    out.push(0);
    out.push(0);
    out.push(0);
    out.push(0);
    out.push(0);
    out.push(0x01);
    out.push(0x02);
    out.push(0x27);
    out.push(0x03);
    out.push(0x01);
    out.push(0xcc);
    out.push(0xff);
    out.push(0xcc);
    out.push(0xff);
    out.push(0xcc);
    out.push(0xff);
    out.push(0xcc);
    out.push(0xff);
    proof {
        assert(out@ =~= old(out)@ + section_bytes());
    }
}

/// Builds the height-map tag every chunk packet carries.
fn heightmap_tag() -> (r: NamedTag)
    ensures
        crate::nbt::wf_named(r),
        named_tag_bytes(r, true) == spec_heightmap_bytes(),
        named_tag_bytes(r, true).len() <= 0x200,
{
    proof {
        reveal_strlit("MOTION_BLOCKING");
        crate::text::lemma_encode_utf8_len(("MOTION_BLOCKING")@);
    }
    let mut zeros: Vec<i64> = Vec::new();
    let mut j: usize = 0;
    while j < 36
        invariant
            j <= 36,
            zeros@.len() == j,
            forall|i: int| 0 <= i < j ==> zeros@[i] == 0,
        decreases 36 - j,
    {
        zeros.push(0);
        j = j + 1;
    }
    let name = vstd::slice::slice_to_vec("MOTION_BLOCKING".as_bytes());
    let child = NamedTag::new(name, crate::nbt::NBT::LongArray(zeros));
    let mut children: Vec<NamedTag> = Vec::new();
    children.push(child);
    let root = NamedTag::new(Vec::new(), crate::nbt::NBT::Compound(children));
    proof {
        let cseq = seq![child];
        assert(children@ =~= cseq);
        assert(cseq.drop_first() =~= Seq::<NamedTag>::empty());
        assert(cseq[0] == child);
        assert(name@ == ("MOTION_BLOCKING").spec_bytes());
        assert(crate::nbt::wf_named(child));
        assert(cseq.drop_first().len() == 0);
        assert(crate::nbt::wf_named_tags(cseq.drop_first()));
        assert(crate::nbt::wf_named_tags(cseq));
        assert(crate::nbt::wf_named(root));
        crate::nbt::lemma_longs_zero(zeros@);
        crate::protocol::lemma_be_bytes_len(("MOTION_BLOCKING").spec_bytes().len(), 2);
        crate::protocol::lemma_be_bytes_len(0, 2);
        crate::protocol::lemma_be_bytes_len(36, 4);
        assert(crate::nbt::named_tags_bytes(cseq) =~= named_tag_bytes(child, true)
            + crate::nbt::named_tags_bytes(cseq.drop_first()));
        assert(named_tag_bytes(child, true) =~= seq![12u8] + be_bytes(
            ("MOTION_BLOCKING").spec_bytes().len(),
            2,
        ) + ("MOTION_BLOCKING").spec_bytes() + be_bytes(36, 4) + crate::protocol::zero_bytes(288));
        assert(named_tag_bytes(root, true) =~= spec_heightmap_bytes());
    }
    root
}

/// Builds the chunk-data packet for grid cell (x, z).
fn chunk_frame_exec(x: i32, z: i32) -> (r: Vec<u8>)
    requires
        0 <= x < 5,
        0 <= z < 5,
    ensures
        r@ == spec_chunk_frame(x as int, z as int),
{
    let mut data: Vec<u8> = Vec::new();
    let mut j: usize = 0;
    while j < 24
        invariant
            j <= 24,
            data@ == chunk_sections(j as nat),
            data@.len() == 18 * j,
        decreases 24 - j,
    {
        push_section(&mut data);
        j = j + 1;
    }
    let hm = heightmap_tag();
    let b = PacketBuilder::new(0x21)
        .with_i32(x - 2)
        .with_i32(z - 2)
        .with_nbt(&hm)
        .with_var_int(432)
        .with_raw_bytes(data.as_slice())
        .with_var_int(0)
        .with_bool(true)
        .with_var_int(0)
        .with_var_int(0)
        .with_var_int(0)
        .with_var_int(0)
        .with_var_int(0)
        .with_var_int(0);
    proof {
        assert(b.buffer@ =~= be_bytes(u32_repr((x - 2) as i32), 4) + be_bytes(
            u32_repr((z - 2) as i32),
            4,
        ) + spec_heightmap_bytes() + varint_bytes_of(432) + chunk_sections(24) + varint_bytes_of(0)
            + seq![1u8] + varint_bytes_of(0) + varint_bytes_of(0) + varint_bytes_of(0)
            + varint_bytes_of(0) + varint_bytes_of(0) + varint_bytes_of(0));
    }
    b.build()
}

/// Builds the scripted login reply sequence in its exact order.
fn login_burst(username: &[u8], registry: &NamedTag) -> (r: Vec<Vec<u8>>)
    requires
        crate::nbt::wf_named(*registry),
        named_tag_bytes(*registry, true).len() <= 0x10_0000,
        username@.len() <= 0x7ffe_0000,
    ensures
        r.deep_view() == spec_login_burst(username@, *registry),
{
    proof {
        reveal_strlit("minecraft:the_end");
        crate::text::lemma_encode_utf8_len(("minecraft:the_end")@);
    }
    let mut frames: Vec<Vec<u8>> = Vec::new();

    let b = PacketBuilder::new(0x02).with_uuid(0).with_string_bytes(username).with_var_int(0);
    proof {
        assert(b.buffer@ =~= be_bytes(0, 16) + string_field(username@) + varint_bytes_of(0));
    }
    frames.push(b.build());

    let b = PacketBuilder::new(0x25)
        .with_i32(0)
        .with_bool(false)
        .with_u8(3)
        .with_u8(0xff)
        .with_var_int(1)
        .with_string("minecraft:the_end")
        .with_nbt(registry)
        .with_string("minecraft:the_end")
        .with_string("minecraft:the_end")
        .with_i64(0)
        .with_var_int(20)
        .with_var_int(2)
        .with_var_int(2)
        .with_bool(false)
        .with_bool(false)
        .with_bool(true)
        .with_bool(false)
        .with_bool(false);
    proof {
        assert(b.buffer@ =~= be_bytes(0, 4) + seq![0u8, 3u8, 0xffu8] + varint_bytes_of(1)
            + string_field(("minecraft:the_end").spec_bytes()) + named_tag_bytes(*registry, true)
            + string_field(("minecraft:the_end").spec_bytes()) + string_field(
            ("minecraft:the_end").spec_bytes(),
        ) + be_bytes(0, 8) + varint_bytes_of(20) + varint_bytes_of(2) + varint_bytes_of(2)
            + seq![0u8, 0u8, 1u8, 0u8, 0u8]);
    }
    frames.push(b.build());

    let b = PacketBuilder::new(0x4a).with_u8(0);
    proof {
        assert(b.buffer@ =~= seq![0u8]);
    }
    frames.push(b.build());

    let b = PacketBuilder::new(0x6a).with_var_int(0);
    proof {
        assert(b.buffer@ =~= varint_bytes_of(0));
    }
    frames.push(b.build());

    let b = PacketBuilder::new(0x6b).with_var_int(0);
    proof {
        assert(b.buffer@ =~= varint_bytes_of(0));
    }
    frames.push(b.build());

    let b = PacketBuilder::new(0x1a).with_i32(0).with_u8(28);
    proof {
        assert(b.buffer@ =~= be_bytes(0, 4) + seq![28u8]);
    }
    frames.push(b.build());

    frames.push(pos_sync_frame());

    let b = PacketBuilder::new(0x37).with_var_int(0).with_var_int(0);
    proof {
        assert(b.buffer@ =~= varint_bytes_of(0) + varint_bytes_of(0));
    }
    frames.push(b.build());

    let b = PacketBuilder::new(0x4b).with_var_int(0).with_var_int(0);
    proof {
        assert(b.buffer@ =~= varint_bytes_of(0) + varint_bytes_of(0));
    }
    frames.push(b.build());

    let ghost first9 = seq![
        spec_login_success_frame(username@),
        spec_join_frame(*registry),
        spec_slot_frame(),
        spec_recipes_frame(),
        spec_tags_frame(),
        spec_entity_event_frame(),
        spec_pos_sync_frame(),
        spec_player_info_frame(),
        spec_center_chunk_frame(),
    ];
    proof {
        lemma_frames_deep_view(frames);
        assert(frames.deep_view() =~= first9);
    }

    let mut x: i32 = 0;
    while x < 5
        invariant
            0 <= x <= 5,
            frames.deep_view() == first9 + Seq::new(
                (5 * x) as nat,
                |i: int| spec_chunk_frame(i / 5, i % 5),
            ),
        decreases 5 - x,
    {
        let mut z: i32 = 0;
        while z < 5
            invariant
                0 <= x < 5,
                0 <= z <= 5,
                frames.deep_view() == first9 + Seq::new(
                    (5 * x + z) as nat,
                    |i: int| spec_chunk_frame(i / 5, i % 5),
                ),
            decreases 5 - z,
        {
            let ghost old_view = frames.deep_view();
            let ghost k = 5 * x + z;
            let f = chunk_frame_exec(x, z);
            frames.push(f);
            proof {
                lemma_frames_deep_view(frames);
                assert(frames.deep_view() =~= old_view.push(f@));
                assert(k / 5 == x as int && k % 5 == z as int) by (nonlinear_arith)
                    requires
                        k == 5 * x + z,
                        0 <= z < 5,
                        0 <= x,
                ;
                assert(frames.deep_view() =~= first9 + Seq::new(
                    (5 * x + z + 1) as nat,
                    |i: int| spec_chunk_frame(i / 5, i % 5),
                ));
            }
            z = z + 1;
        }
        x = x + 1;
    }

    let ghost old_view = frames.deep_view();
    let f = pos_sync_frame();
    frames.push(f);
    proof {
        lemma_frames_deep_view(frames);
        assert(frames.deep_view() =~= old_view.push(f@));
        assert(frames.deep_view() =~= spec_login_burst(username@, *registry));
    }
    frames
}

/// Builds the player-position synchronization packet at the origin.
fn pos_sync_frame() -> (r: Vec<u8>)
    ensures
        r@ == spec_pos_sync_frame(),
{
    // The three doubles and two floats are all 0.0, whose bit patterns are
    // zero; the fields are written as their raw big-endian bytes.
    let b = PacketBuilder::new(0x39)
        .with_i64(0)
        .with_i64(0)
        .with_i64(0)
        .with_i32(0)
        .with_i32(0)
        .with_u8(0)
        .with_var_int(42)
        .with_bool(false);
    proof {
        assert(b.buffer@ =~= be_bytes(0, 8) + be_bytes(0, 8) + be_bytes(0, 8) + be_bytes(0, 4)
            + be_bytes(0, 4) + seq![0u8] + varint_bytes_of(42) + seq![0u8]);
    }
    b.build()
}

/// Byte-for-byte equality of two slices.
pub fn bytes_eq(a: &[u8], b: &[u8]) -> (r: bool)
    ensures
        r == (a@ == b@),
{
    if a.len() != b.len() {
        proof {
            assert(a@.len() != b@.len());
        }
        return false;
    }
    let mut i: usize = 0;
    while i < a.len()
        invariant
            i <= a@.len(),
            a@.len() == b@.len(),
            forall|j: int| 0 <= j < i ==> a@[j] == b@[j],
        decreases a@.len() - i,
    {
        if a[i] != b[i] {
            return false;
        }
        i = i + 1;
    }
    proof {
        assert(a@ =~= b@);
    }
    true
}

/// What a Play-phase chat command decides: the store query to make, or the
/// kick that answers a syntax error, a password mismatch or an unknown
/// command.
pub open spec fn spec_command(st: SpecState, cmd: Seq<u8>) -> SpecOutcome {
    let args = split_spaces(cmd);
    if args[0] == ("login").spec_bytes() {
        if args.len() != 2 {
            SpecOutcome::Kick(
                spec_kick_frame(("Invalid syntax. Usage: /login [password]").spec_bytes()),
            )
        } else {
            match st.username {
                None => SpecOutcome::Kick(spec_kick_frame(("Internal error.").spec_bytes())),
                Some(u) => SpecOutcome::QueryAuth(u, args[1]),
            }
        }
    } else if args[0] == ("register").spec_bytes() {
        if args.len() != 3 {
            SpecOutcome::Kick(
                spec_kick_frame(
                    ("Invalid syntax. Usage: /register [password] [password]").spec_bytes(),
                ),
            )
        } else if args[1] != args[2] {
            SpecOutcome::Kick(spec_kick_frame(("Passwords do not match.").spec_bytes()))
        } else {
            match st.username {
                None => SpecOutcome::Kick(spec_kick_frame(("Internal error.").spec_bytes())),
                Some(u) => SpecOutcome::QueryRegister(u, args[1]),
            }
        }
    } else {
        SpecOutcome::Kick(spec_kick_frame(("Invalid command.").spec_bytes()))
    }
}

/// The handshake phase: packet 0 carries protocol version, server address,
/// server port and the next state, which becomes the new phase; every other
/// packet id is ignored.
pub open spec fn spec_handshake(st: SpecState, packet_id: i32, payload: Seq<u8>) -> Result<
    (SpecState, SpecOutcome),
    ProtoError,
> {
    if packet_id == 0 {
        match spec_read_varint_r(payload, 0) {
            Err(e) => Err(e),
            Ok((_version, n1)) => match spec_read_string(payload, n1) {
                Err(e) => Err(e),
                Ok((_addr, n2)) => if n1 + n2 + 2 > payload.len() {
                    Err(ProtoError::Truncated)
                } else {
                    match spec_read_varint_r(payload, n1 + n2 + 2) {
                        Err(e) => Err(e),
                        Ok((next, _n3)) => Ok(
                            (
                                SpecState { state: (next as i32) as int, username: st.username },
                                SpecOutcome::Continue(seq![]),
                            ),
                        ),
                    }
                },
            },
        }
    } else {
        Ok((st, SpecOutcome::Continue(seq![])))
    }
}

/// The status phase: packet 0 answers with the preloaded status document,
/// packet 1 echoes the 8-byte ping payload; no phase transition occurs.
pub open spec fn spec_status(
    st: SpecState,
    packet_id: i32,
    payload: Seq<u8>,
    status_json: Seq<u8>,
) -> Result<(SpecState, SpecOutcome), ProtoError> {
    if packet_id == 0 {
        Ok((st, SpecOutcome::Continue(seq![spec_frame(0x00, string_field(status_json))])))
    } else if packet_id == 1 {
        if payload.len() < 8 {
            Err(ProtoError::Truncated)
        } else {
            Ok((st, SpecOutcome::Continue(seq![spec_frame(0x01, payload.subrange(0, 8))])))
        }
    } else {
        Ok((st, SpecOutcome::Continue(seq![])))
    }
}

/// The login phase: packet 0 stores the claimed username, moves to Play, and
/// emits the scripted sequence followed by the existence query; every other
/// packet id is ignored.
pub open spec fn spec_login(
    st: SpecState,
    packet_id: i32,
    payload: Seq<u8>,
    registry: NamedTag,
) -> Result<(SpecState, SpecOutcome), ProtoError> {
    if packet_id == 0 {
        match spec_read_string(payload, 0) {
            Err(e) => Err(e),
            Ok((uname, _n)) => Ok(
                (
                    SpecState { state: 3, username: Some(uname) },
                    SpecOutcome::QueryExists(spec_login_burst(uname, registry), uname),
                ),
            ),
        }
    } else {
        Ok((st, SpecOutcome::Continue(seq![])))
    }
}

/// The play phase: the two keep-alive widths are echoed back under their
/// server-to-client ids, chat is read and dropped, and chat commands drive
/// the credential flow; every other packet id is ignored.
pub open spec fn spec_play(st: SpecState, packet_id: i32, payload: Seq<u8>) -> Result<
    (SpecState, SpecOutcome),
    ProtoError,
> {
    if packet_id == 0x20 {
        if payload.len() < 4 {
            Err(ProtoError::Truncated)
        } else {
            Ok((st, SpecOutcome::Continue(seq![spec_frame(0x2f, payload.subrange(0, 4))])))
        }
    } else if packet_id == 0x12 {
        if payload.len() < 8 {
            Err(ProtoError::Truncated)
        } else {
            Ok((st, SpecOutcome::Continue(seq![spec_frame(0x20, payload.subrange(0, 8))])))
        }
    } else if packet_id == 0x05 {
        match spec_read_string(payload, 0) {
            Err(e) => Err(e),
            Ok(_) => Ok((st, SpecOutcome::Continue(seq![]))),
        }
    } else if packet_id == 0x04 {
        match spec_read_string(payload, 0) {
            Err(e) => Err(e),
            Ok((cmd, _n)) => Ok((st, spec_command(st, cmd))),
        }
    } else {
        Ok((st, SpecOutcome::Continue(seq![])))
    }
}

/// One step of the session state machine: how a session in phase `st.state`
/// reacts to a frame with the given packet id and payload. A phase outside
/// the defined set is fatal.
pub open spec fn spec_step(
    st: SpecState,
    packet_id: i32,
    payload: Seq<u8>,
    status_json: Seq<u8>,
    registry: NamedTag,
) -> Result<(SpecState, SpecOutcome), ProtoError> {
    if st.state == 0 {
        spec_handshake(st, packet_id, payload)
    } else if st.state == 1 {
        spec_status(st, packet_id, payload, status_json)
    } else if st.state == 2 {
        spec_login(st, packet_id, payload, registry)
    } else if st.state == 3 {
        spec_play(st, packet_id, payload)
    } else {
        Err(ProtoError::UnknownPhase)
    }
}

impl State {
    /// A fresh session: handshake phase, no username claimed yet.
    pub fn new() -> (r: Self)
        ensures
            r@.state == 0,
            r@.username is None,
    {
        State { state: 0, username: None }
    }

    /// The handshake-phase half of the dispatch.
    fn receive_handshake_packet(&mut self, packet_id: i32, payload: &[u8]) -> (r: Result<
        Outcome,
        ProtoError,
    >)
        requires
            old(self)@.state == 0,
            payload@.len() <= 0x7ffe_0000,
        ensures
            match r {
                Ok(out) => spec_handshake(old(self)@, packet_id, payload@) == Ok::<_, ProtoError>(
                    (final(self)@, out@),
                ),
                Err(e) => spec_handshake(old(self)@, packet_id, payload@) == Err::<
                    (SpecState, SpecOutcome),
                    _,
                >(e) && final(self)@ == old(self)@,
            },
    {
        if packet_id == 0 {
            let (_version, n1) = match crate::varint::VarInt::read(payload, 0) {
                Ok(p) => p,
                Err(e) => {
                    proof {
                        crate::varint::lemma_varint_dec_none(payload@, 0, 5);
                    }
                    return Err(e);
                },
            };
            let (_addr, n2) = match crate::protocol::read_string(payload, n1) {
                Ok(p) => p,
                Err(e) => {
                    return Err(e);
                },
            };
            if n1 + n2 + 2 > payload.len() {
                return Err(ProtoError::Truncated);
            }
            let _port = match crate::protocol::read_u16_be(payload, n1 + n2) {
                Ok(p) => p,
                Err(e) => {
                    return Err(e);
                },
            };
            let (next, _n3) = match crate::varint::VarInt::read(payload, n1 + n2 + 2) {
                Ok(p) => p,
                Err(e) => {
                    proof {
                        crate::varint::lemma_varint_dec_none(payload@, n1 + n2 + 2, 5);
                    }
                    return Err(e);
                },
            };
            proof {
                assert((next as u32) as i32 == next) by (bit_vector);
            }
            self.state = next;
            Ok(Outcome::Continue(no_frames()))
        } else {
            Ok(Outcome::Continue(no_frames()))
        }
    }

    /// The status-phase half of the dispatch.
    fn receive_status_packet(&mut self, packet_id: i32, payload: &[u8], status_json: &[u8]) -> (r:
        Result<Outcome, ProtoError>)
        requires
            old(self)@.state == 1,
            status_json@.len() <= 0x10_0000,
        ensures
            match r {
                Ok(out) => spec_status(old(self)@, packet_id, payload@, status_json@) == Ok::<
                    _,
                    ProtoError,
                >((final(self)@, out@)),
                Err(e) => spec_status(old(self)@, packet_id, payload@, status_json@) == Err::<
                    (SpecState, SpecOutcome),
                    _,
                >(e) && final(self)@ == old(self)@,
            },
    {
        if packet_id == 0 {
            let f = PacketBuilder::new(0x00).with_string_bytes(status_json).build();
            let mut frames: Vec<Vec<u8>> = Vec::new();
            frames.push(f);
            proof {
                assert(Seq::<u8>::empty() + string_field(status_json@) =~= string_field(
                    status_json@,
                ));
                lemma_frames_deep_view(frames);
                assert(frames.deep_view() =~= seq![spec_frame(0x00, string_field(status_json@))]);
            }
            Ok(Outcome::Continue(frames))
        } else if packet_id == 1 {
            let v = match crate::protocol::read_i64_be(payload, 0) {
                Ok(p) => p,
                Err(e) => {
                    return Err(e);
                },
            };
            let f = PacketBuilder::new(0x01).with_i64(v).build();
            let mut frames: Vec<Vec<u8>> = Vec::new();
            frames.push(f);
            proof {
                crate::protocol::lemma_be_round_trip(payload@, 0, 8);
                assert(Seq::<u8>::empty() + be_bytes(crate::protocol::u64_repr(v), 8)
                    =~= payload@.subrange(0, 8));
                lemma_frames_deep_view(frames);
                assert(frames.deep_view() =~= seq![spec_frame(0x01, payload@.subrange(0, 8))]);
            }
            Ok(Outcome::Continue(frames))
        } else {
            Ok(Outcome::Continue(no_frames()))
        }
    }

    /// The login-phase half of the dispatch.
    fn receive_login_packet(&mut self, packet_id: i32, payload: &[u8], registry: &NamedTag) -> (r:
        Result<Outcome, ProtoError>)
        requires
            old(self)@.state == 2,
            crate::nbt::wf_named(*registry),
            named_tag_bytes(*registry, true).len() <= 0x10_0000,
            payload@.len() <= 0x7ffe_0000,
        ensures
            match r {
                Ok(out) => spec_login(old(self)@, packet_id, payload@, *registry) == Ok::<
                    _,
                    ProtoError,
                >((final(self)@, out@)),
                Err(e) => spec_login(old(self)@, packet_id, payload@, *registry) == Err::<
                    (SpecState, SpecOutcome),
                    _,
                >(e) && final(self)@ == old(self)@,
            },
    {
        if packet_id == 0 {
            let (uname, _n) = match crate::protocol::read_string(payload, 0) {
                Ok(p) => p,
                Err(e) => {
                    return Err(e);
                },
            };
            proof {
                assert(uname@.len() <= payload@.len());
            }
            let frames = login_burst(uname.as_slice(), registry);
            self.state = 3;
            let uname2 = clone_bytes(&uname);
            self.username = Some(uname2);
            Ok(Outcome::QueryExists(frames, uname))
        } else {
            Ok(Outcome::Continue(no_frames()))
        }
    }

    /// Consumes one framed packet and reacts as `spec_step` prescribes.
    pub fn receive_packet(
        &mut self,
        packet_id: i32,
        payload: &[u8],
        status_json: &[u8],
        registry: &NamedTag,
    ) -> (r: Result<Outcome, ProtoError>)
        requires
            crate::nbt::wf_named(*registry),
            named_tag_bytes(*registry, true).len() <= 0x10_0000,
            payload@.len() <= 0x7ffe_0000,
            status_json@.len() <= 0x10_0000,
        ensures
            match r {
                Ok(out) => spec_step(
                    old(self)@,
                    packet_id,
                    payload@,
                    status_json@,
                    *registry,
                ) == Ok::<_, ProtoError>((final(self)@, out@)),
                Err(e) => spec_step(old(self)@, packet_id, payload@, status_json@, *registry)
                    == Err::<(SpecState, SpecOutcome), _>(e) && final(self)@ == old(self)@,
            },
    {
        if self.state == 0 {
            self.receive_handshake_packet(packet_id, payload)
        } else if self.state == 1 {
            self.receive_status_packet(packet_id, payload, status_json)
        } else if self.state == 2 {
            self.receive_login_packet(packet_id, payload, registry)
        } else if self.state == 3 {
            self.receive_play_packet(packet_id, payload)
        } else {
            Err(ProtoError::UnknownPhase)
        }
    }

    /// The Play-phase half of the dispatch.
    fn receive_play_packet(&mut self, packet_id: i32, payload: &[u8]) -> (r: Result<
        Outcome,
        ProtoError,
    >)
        requires
            old(self)@.state == 3,
            payload@.len() <= 0x7ffe_0000,
        ensures
            match r {
                Ok(out) => spec_play(old(self)@, packet_id, payload@) == Ok::<_, ProtoError>(
                    (final(self)@, out@),
                ),
                Err(e) => spec_play(old(self)@, packet_id, payload@) == Err::<
                    (SpecState, SpecOutcome),
                    _,
                >(e) && final(self)@ == old(self)@,
            },
    {
        if packet_id == 0x20 {
            let v = match crate::protocol::read_i32_be(payload, 0) {
                Ok(p) => p,
                Err(e) => {
                    return Err(e);
                },
            };
            let f = PacketBuilder::new(0x2f).with_i32(v).build();
            let mut frames: Vec<Vec<u8>> = Vec::new();
            frames.push(f);
            proof {
                crate::protocol::lemma_be_round_trip(payload@, 0, 4);
                assert(Seq::<u8>::empty() + be_bytes(u32_repr(v), 4) =~= payload@.subrange(0, 4));
                lemma_frames_deep_view(frames);
                assert(frames.deep_view() =~= seq![spec_frame(0x2f, payload@.subrange(0, 4))]);
            }
            Ok(Outcome::Continue(frames))
        } else if packet_id == 0x12 {
            let v = match crate::protocol::read_i64_be(payload, 0) {
                Ok(p) => p,
                Err(e) => {
                    return Err(e);
                },
            };
            let f = PacketBuilder::new(0x20).with_i64(v).build();
            let mut frames: Vec<Vec<u8>> = Vec::new();
            frames.push(f);
            proof {
                crate::protocol::lemma_be_round_trip(payload@, 0, 8);
                assert(Seq::<u8>::empty() + be_bytes(crate::protocol::u64_repr(v), 8)
                    =~= payload@.subrange(0, 8));
                lemma_frames_deep_view(frames);
                assert(frames.deep_view() =~= seq![spec_frame(0x20, payload@.subrange(0, 8))]);
            }
            Ok(Outcome::Continue(frames))
        } else if packet_id == 0x05 {
            match crate::protocol::read_string(payload, 0) {
                Ok(_) => Ok(Outcome::Continue(no_frames())),
                Err(e) => Err(e),
            }
        } else if packet_id == 0x04 {
            let (cmd, _n) = match crate::protocol::read_string(payload, 0) {
                Ok(p) => p,
                Err(e) => {
                    return Err(e);
                },
            };
            Ok(self.run_command(cmd.as_slice()))
        } else {
            Ok(Outcome::Continue(no_frames()))
        }
    }

    /// Dispatches one chat command.
    fn run_command(&self, cmd: &[u8]) -> (r: Outcome)
        ensures
            r@ == spec_command(self@, cmd@),
    {
        proof {
            reveal_strlit("login");
            reveal_strlit("register");
            reveal_strlit("Invalid syntax. Usage: /login [password]");
            reveal_strlit("Invalid syntax. Usage: /register [password] [password]");
            reveal_strlit("Passwords do not match.");
            reveal_strlit("Internal error.");
            reveal_strlit("Invalid command.");
        }
        let args = split_spaces_exec(cmd);
        proof {
            lemma_split_nonempty(cmd@);
            lemma_frames_deep_view(args);
        }
        let a0 = &args[0];
        if bytes_eq(a0.as_slice(), "login".as_bytes()) {
            if args.len() != 2 {
                return Outcome::Kick(kick("Invalid syntax. Usage: /login [password]"));
            }
            match &self.username {
                None => Outcome::Kick(kick("Internal error.")),
                Some(u) => Outcome::QueryAuth(clone_bytes(u), clone_bytes(&args[1])),
            }
        } else if bytes_eq(a0.as_slice(), "register".as_bytes()) {
            if args.len() != 3 {
                return Outcome::Kick(
                    kick("Invalid syntax. Usage: /register [password] [password]"),
                );
            }
            if !bytes_eq(args[1].as_slice(), args[2].as_slice()) {
                return Outcome::Kick(kick("Passwords do not match."));
            }
            match &self.username {
                None => Outcome::Kick(kick("Internal error.")),
                Some(u) => Outcome::QueryRegister(clone_bytes(u), clone_bytes(&args[1])),
            }
        } else {
            Outcome::Kick(kick("Invalid command."))
        }
    }
}

/// Copies a byte vector.
fn clone_bytes(v: &Vec<u8>) -> (r: Vec<u8>)
    ensures
        r@ == v@,
{
    vstd::slice::slice_to_vec(v.as_slice())
}

/// An empty reply list.
fn no_frames() -> (r: Vec<Vec<u8>>)
    ensures
        r.deep_view() == Seq::<Seq<u8>>::empty(),
{
    let r: Vec<Vec<u8>> = Vec::new();
    proof {
        assert(r.deep_view() =~= Seq::<Seq<u8>>::empty());
    }
    r
}

} // verus!
