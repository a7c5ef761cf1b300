//! A client for KeePassXC's browser protocol: where its socket lies, how a
//! connection is set up, what is sent and what is made of the replies. The
//! socket itself is in the caller's hands.

use vstd::prelude::*;

use crate::crypto;
use crate::encoding;
use crate::json;
use crate::script;
use crate::settings;
use crate::settings::Settings;
use crate::text;

verus! {

// The socket.

/// Where the socket lies in the runtime directory, in releases from 2.7 on and
/// in the Flatpak.
pub const SOCKET: &'static str = "/app/org.keepassxc.KeePassXC/org.keepassxc.KeePassXC.BrowserServer";

/// Where earlier releases have it.
pub const LEGACY_SOCKET: &'static str = "/org.keepassxc.KeePassXC.BrowserServer";

/// The paths at which the socket may lie, the preferred one first.
pub open spec fn candidates(runtime_dir: Seq<char>) -> Seq<Seq<char>> {
    seq![runtime_dir + SOCKET@, runtime_dir + LEGACY_SOCKET@]
}

/// The paths at which the socket may lie, the preferred one first.
pub fn socket_candidates(runtime_dir: &str) -> (r: Vec<String>)
    ensures
        text::texts(r@) == candidates(runtime_dir@),
{
    let mut r: Vec<String> = Vec::new();
    r.push(text::joined(runtime_dir, SOCKET));
    r.push(text::joined(runtime_dir, LEGACY_SOCKET));
    assert(text::texts(r@) =~= candidates(runtime_dir@));
    r
}

/// The socket, given the value of `XDG_RUNTIME_DIR` where it is set, and which
/// paths exist.
pub open spec fn socket(runtime_dir: Option<String>, existing: Seq<Seq<char>>) -> Option<Seq<char>> {
    match runtime_dir {
        None => None,
        Some(dir) => if existing.contains(candidates(dir@)[0]) {
            Some(candidates(dir@)[0])
        } else if existing.contains(candidates(dir@)[1]) {
            Some(candidates(dir@)[1])
        } else {
            None
        },
    }
}

fn is_among(path: &str, paths: &Vec<String>) -> (r: bool)
    ensures
        r == text::texts(paths@).contains(path@),
{
    let mut i: usize = 0;
    while i < paths.len()
        invariant
            i <= paths.len(),
            forall|j: int| 0 <= j < i ==> #[trigger] paths@[j]@ != path@,
        decreases paths.len() - i,
    {
        if text::same(paths[i].as_str(), path) {
            assert(text::texts(paths@)[i as int] == path@);
            return true;
        }
        i += 1;
    }
    assert forall|j: int| 0 <= j < text::texts(paths@).len() implies text::texts(paths@)[j]
        != path@ by {
        assert(text::texts(paths@)[j] == paths@[j]@);
    }
    false
}

/// Find the KeePassXC browser server's socket, given the runtime directory and
/// which of the candidates exist.
pub fn socket_path(runtime_dir: Option<String>, existing: &Vec<String>) -> (r: Option<String>)
    ensures
        match r {
            Some(path) => socket(runtime_dir, text::texts(existing@)) == Some(path@),
            None => socket(runtime_dir, text::texts(existing@)) is None,
        },
{
    match runtime_dir {
        None => None,
        Some(dir) => {
            let primary = text::joined(dir.as_str(), SOCKET);
            if is_among(primary.as_str(), existing) {
                return Some(primary);
            }
            let legacy = text::joined(dir.as_str(), LEGACY_SOCKET);
            if is_among(legacy.as_str(), existing) {
                return Some(legacy);
            }
            None
        },
    }
}

/// Check whether KeePassXC is available (its socket exists).
pub fn is_available(runtime_dir: Option<String>, existing: &Vec<String>) -> (r: bool)
    ensures
        r == (socket(runtime_dir, text::texts(existing@)) is Some),
{
    socket_path(runtime_dir, existing).is_some()
}

// Reading a message off the socket.

/// What came of an attempt to read from the socket.
pub enum ReadEvent {
    /// Bytes arrived.
    Data(Vec<u8>),
    /// The other side closed the connection.
    Closed,
    /// Nothing arrived in time.
    TimedOut,
    /// Reading failed, with the reason.
    Failed(String),
}

/// What to do next.
pub enum ReadStep {
    /// The message is complete.
    Complete,
    /// Read on.
    More,
    /// Give up, with the reason.
    Failed(String),
}

/// Whether a read step gives up with this text.
pub open spec fn fails_with(step: ReadStep, reason: Seq<char>) -> bool {
    step matches ReadStep::Failed(e) && e@ == reason
}

/// Takes in what was read. A message is complete as soon as all that has
/// arrived is JSON; there is no other mark of its end.
pub fn read_json(buf: &mut Vec<u8>, event: ReadEvent) -> (r: ReadStep)
    ensures
        final(buf)@ == match event {
            ReadEvent::Data(bytes) => old(buf)@ + bytes@,
            _ => old(buf)@,
        },
        match event {
            ReadEvent::Data(_) => if json::json_problem(final(buf)@) is None {
                r is Complete
            } else {
                r is More
            },
            ReadEvent::Closed => fails_with(r, "Connection closed"@),
            ReadEvent::TimedOut => if old(buf)@.len() == 0 {
                fails_with(r, "Read timeout"@)
            } else {
                match json::json_problem(old(buf)@) {
                    None => r is Complete,
                    Some(problem) => fails_with(r, "Incomplete response: "@ + problem),
                }
            },
            ReadEvent::Failed(reason) => fails_with(r, "Socket read: "@ + reason@),
        },
{
    match event {
        ReadEvent::Data(bytes) => {
            let mut bytes = bytes;
            buf.append(&mut bytes);
            match json::check_json(buf.as_slice()) {
                None => ReadStep::Complete,
                Some(_) => ReadStep::More,
            }
        },
        ReadEvent::Closed => ReadStep::Failed("Connection closed".to_owned()),
        ReadEvent::TimedOut => {
            if buf.len() == 0 {
                return ReadStep::Failed("Read timeout".to_owned());
            }
            match json::check_json(buf.as_slice()) {
                None => ReadStep::Complete,
                Some(problem) => ReadStep::Failed(
                    text::joined("Incomplete response: ", problem.as_str()),
                ),
            }
        },
        ReadEvent::Failed(reason) => ReadStep::Failed(
            text::joined("Socket read: ", reason.as_str()),
        ),
    }
}

// Nonces.

/// The number that bytes stand for, the least significant one first.
pub open spec fn number(bytes: Seq<u8>) -> nat
    decreases bytes.len(),
{
    if bytes.len() == 0 {
        0
    } else {
        bytes[0] as nat + 256 * number(bytes.skip(1))
    }
}

/// How many numbers `n` bytes can stand for.
pub open spec fn numbers(n: nat) -> nat
    decreases n,
{
    if n == 0 {
        1
    } else {
        256 * numbers((n - 1) as nat)
    }
}

/// The bytes that follow: the number is one higher, and after the highest comes
/// zero.
pub open spec fn following(bytes: Seq<u8>) -> Seq<u8>
    decreases bytes.len(),
{
    if bytes.len() == 0 {
        bytes
    } else if bytes[0] < 255 {
        bytes.update(0, (bytes[0] + 1) as u8)
    } else {
        seq![0u8] + following(bytes.skip(1))
    }
}

/// To follow is to add one, modulo the number of values.
pub proof fn law_following_adds_one(bytes: Seq<u8>)
    ensures
        following(bytes).len() == bytes.len(),
        number(bytes) < numbers(bytes.len()),
        number(following(bytes)) == (number(bytes) + 1) % numbers(bytes.len()),
    decreases bytes.len(),
{
    if bytes.len() > 0 {
        let rest = bytes.skip(1);
        law_following_adds_one(rest);
        if bytes[0] < 255 {
            assert(following(bytes).skip(1) =~= rest);
            assert(number(bytes) + 1 < numbers(bytes.len()));
            vstd::arithmetic::div_mod::lemma_small_mod(
                (number(bytes) + 1) as nat,
                numbers(bytes.len()),
            );
        } else {
            assert(following(bytes).skip(1) =~= following(rest));
            assert(number(following(bytes)) == 256 * number(following(rest)));
            let m = numbers(rest.len());
            assert(number(bytes) + 1 == 256 * (number(rest) + 1));
            if number(rest) + 1 == m {
                assert(m % m == 0) by {
                    vstd::arithmetic::div_mod::lemma_mod_self_0(m as int);
                }
                assert((256 * m) % (256 * m) == 0) by {
                    vstd::arithmetic::div_mod::lemma_mod_self_0(256 * m as int);
                }
            } else {
                vstd::arithmetic::div_mod::lemma_small_mod((number(rest) + 1) as nat, m);
                vstd::arithmetic::div_mod::lemma_small_mod(
                    (number(bytes) + 1) as nat,
                    numbers(bytes.len()),
                );
            }
        }
    }
}

/// A nonce and the one that follows differ: the reply to a message is never
/// sealed with the nonce of the message.
pub proof fn law_following_differs(bytes: Seq<u8>)
    requires
        bytes.len() > 0,
    ensures
        following(bytes) != bytes,
{
    if bytes[0] < 255 {
        assert(following(bytes)[0] == bytes[0] + 1);
    } else {
        assert(following(bytes)[0] == 0);
    }
}

proof fn lemma_following_from(nonce: Seq<u8>, i: int)
    requires
        0 <= i < nonce.len(),
        forall|j: int| 0 <= j < i ==> nonce[j] == 255,
    ensures
        nonce[i] < 255 ==> following(nonce) == Seq::new(
            nonce.len(),
            |j: int|
                if j < i {
                    0u8
                } else if j == i {
                    (nonce[i] + 1) as u8
                } else {
                    nonce[j]
                },
        ),
        nonce[i] == 255 && i == nonce.len() - 1 ==> following(nonce) == Seq::new(
            nonce.len(),
            |j: int| 0u8,
        ),
    decreases nonce.len(),
{
    let rest = nonce.skip(1);
    if i > 0 {
        assert(forall|j: int| 0 <= j < i - 1 ==> rest[j] == nonce[j + 1]);
        lemma_following_from(rest, i - 1);
        assert(following(nonce) == seq![0u8] + following(rest));
    }
    if nonce[i] < 255 {
        assert(following(nonce) =~= Seq::new(
            nonce.len(),
            |j: int|
                if j < i {
                    0u8
                } else if j == i {
                    (nonce[i] + 1) as u8
                } else {
                    nonce[j]
                },
        ));
    } else if i == nonce.len() - 1 {
        if i == 0 {
            assert(rest =~= Seq::empty());
            assert(following(rest) =~= Seq::empty());
        }
        assert(following(nonce) =~= Seq::new(nonce.len(), |j: int| 0u8));
    }
}

/// The nonce that follows.
pub fn increment_nonce(nonce: &[u8; 24]) -> (r: [u8; 24])
    ensures
        r@ == following(nonce@),
{
    let mut r: [u8; 24] = *nonce;
    let mut i: usize = 0;
    while i < 24
        invariant
            i <= 24,
            r@.len() == 24,
            nonce@.len() == 24,
            forall|j: int| 0 <= j < i ==> nonce@[j] == 255 && r@[j] == 0,
            forall|j: int| i <= j < 24 ==> r@[j] == nonce@[j],
        decreases 24 - i,
    {
        let b: u8 = r[i];
        proof {
            lemma_following_from(nonce@, i as int);
        }
        if b < 255 {
            r[i] = b + 1;
            assert(r@ =~= following(nonce@));
            return r;
        }
        r[i] = 0;
        i += 1;
    }
    proof {
        lemma_following_from(nonce@, 23);
    }
    assert(r@ =~= following(nonce@));
    r
}

fn array_24(bytes: &Vec<u8>) -> (r: [u8; 24])
    requires
        bytes@.len() == 24,
    ensures
        r@ == bytes@,
{
    let mut r: [u8; 24] = [0u8; 24];
    let mut i: usize = 0;
    while i < 24
        invariant
            i <= 24,
            bytes@.len() == 24,
            r@.len() == 24,
            forall|j: int| 0 <= j < i ==> r@[j] == bytes@[j],
        decreases 24 - i,
    {
        r[i] = bytes[i];
        i += 1;
    }
    assert(r@ =~= bytes@);
    r
}

fn array_32(bytes: &Vec<u8>) -> (r: [u8; 32])
    requires
        bytes@.len() == 32,
    ensures
        r@ == bytes@,
{
    let mut r: [u8; 32] = [0u8; 32];
    let mut i: usize = 0;
    while i < 32
        invariant
            i <= 32,
            bytes@.len() == 32,
            r@.len() == 32,
            forall|j: int| 0 <= j < i ==> r@[j] == bytes@[j],
        decreases 32 - i,
    {
        r[i] = bytes[i];
        i += 1;
    }
    assert(r@ =~= bytes@);
    r
}

/// Fresh random bytes.
fn random_24_bytes() -> [u8; 24] {
    let bytes = crypto::random_bytes(24);
    array_24(&bytes)
}

// Sealed messages.

/// The data that a base64 text stands for; `None` where it is no encoding.
pub open spec fn unarmoured(t: Seq<char>) -> Option<Seq<u8>> {
    if exists|data: Seq<u8>| encoding::encoded(data) == t {
        Some(choose|data: Seq<u8>| encoding::encoded(data) == t)
    } else {
        None
    }
}

/// A text stands for the data that it is the encoding of.
pub proof fn law_unarmoured(data: Seq<u8>)
    ensures
        unarmoured(encoding::encoded(data)) == Some(data),
{
    let t = encoding::encoded(data);
    let found = choose|d: Seq<u8>| encoding::encoded(d) == t;
    assert(encoding::encoded(found) == t);
    encoding::law_encode_is_injective(found, data);
}

fn unarmour(t: &str) -> (r: Result<Vec<u8>, String>)
    ensures
        match r {
            Ok(data) => unarmoured(t@) == Some(data@),
            Err(problem) => unarmoured(t@) is None && problem@ == crypto::base64_problem(t@),
        },
{
    let r = crypto::base64_bytes(t);
    proof {
        if r is Ok {
            law_unarmoured(r->Ok_0@);
        }
    }
    r
}

/// A message sealed for the host, and the nonce it was sealed with, as they
/// are sent.
pub fn encrypt_message_with(
    plaintext: &[u8],
    host_pk: &[u8; 32],
    client_sk: &[u8; 32],
    nonce: &[u8; 24],
) -> (r: (String, String))
    ensures
        r.0@ == encoding::encoded(
            crypto::box_sealed(host_pk@, client_sk@, nonce@, plaintext@),
        ),
        r.1@ == encoding::encoded(nonce@),
        unarmoured(r.0@) is Some,
        unarmoured(r.1@) == Some(nonce@),
        forall|host_sk: Seq<u8>|
            host_sk.len() == 32 && #[trigger] crypto::x25519_public(host_sk) == host_pk@
                ==> crypto::box_opened(
                crypto::x25519_public(client_sk@),
                host_sk,
                nonce@,
                unarmoured(r.0@)->0,
            ) == Some(plaintext@),
{
    let ciphertext = crypto::box_seal(host_pk, client_sk, nonce, plaintext);
    let message = crypto::base64_text(ciphertext.as_slice());
    let sent = crypto::base64_text(nonce.as_slice());
    proof {
        law_unarmoured(ciphertext@);
        law_unarmoured(nonce@);
    }
    (message, sent)
}

/// Seals a message for the host with a fresh nonce. The nonce comes with it.
pub fn encrypt_message(plaintext: &[u8], host_pk: &[u8; 32], client_sk: &[u8; 32]) -> (r: (
    String,
    String,
    [u8; 24],
))
    ensures
        r.0@ == encoding::encoded(crypto::box_sealed(host_pk@, client_sk@, r.2@, plaintext@)),
        r.1@ == encoding::encoded(r.2@),
{
    let nonce = random_24_bytes();
    let (message, sent) = encrypt_message_with(plaintext, host_pk, client_sk, &nonce);
    (message, sent, nonce)
}

/// The error where a message cannot be opened.
pub const UNREADABLE: &'static str = "Decryption failed — wrong key or corrupt message";

/// The JSON in a message from the host, which answers the message that was
/// sealed with the nonce and is itself sealed with the one that follows, or
/// the error.
pub open spec fn opened(
    message: Seq<char>,
    nonce: Seq<u8>,
    host_pk: Seq<u8>,
    client_sk: Seq<u8>,
) -> Result<Seq<u8>, Seq<char>> {
    match unarmoured(message) {
        None => Err("Base64 decode: "@ + crypto::base64_problem(message)),
        Some(data) => match crypto::box_opened(host_pk, client_sk, following(nonce), data) {
            None => Err(UNREADABLE@),
            Some(plaintext) => match json::json_problem(plaintext) {
                Some(problem) => Err("JSON parse: "@ + problem),
                None => Ok(plaintext),
            },
        },
    }
}

/// Opens a message from the host that answers one sealed with `request_nonce`.
pub fn decrypt_message(
    message: &str,
    request_nonce: &[u8; 24],
    host_pk: &[u8; 32],
    client_sk: &[u8; 32],
) -> (r: Result<Vec<u8>, String>)
    ensures
        match r {
            Ok(plaintext) => opened(message@, request_nonce@, host_pk@, client_sk@) == Ok::<
                Seq<u8>,
                Seq<char>,
            >(plaintext@),
            Err(e) => opened(message@, request_nonce@, host_pk@, client_sk@) == Err::<
                Seq<u8>,
                Seq<char>,
            >(e@),
        },
{
    let ciphertext = match unarmour(message) {
        Ok(data) => data,
        Err(problem) => {
            return Err(text::joined("Base64 decode: ", problem.as_str()));
        },
    };
    let nonce = increment_nonce(request_nonce);
    let plaintext = match crypto::box_open(host_pk, client_sk, &nonce, ciphertext.as_slice()) {
        Some(plaintext) => plaintext,
        None => {
            return Err(UNREADABLE.to_owned());
        },
    };
    match json::check_json(plaintext.as_slice()) {
        None => Ok(plaintext),
        Some(problem) => Err(text::joined("JSON parse: ", problem.as_str())),
    }
}

// The stored association with a database.

/// An association with a database: its identifier, and the keys by which the
/// database knows this browser.
pub struct SavedAssociation {
    pub id: String,
    pub public: String,
    pub secret: Vec<u8>,
}

/// An association, as values.
#[verifier::ext_equal]
pub ghost struct Association {
    pub id: Seq<char>,
    pub public: Seq<char>,
    pub secret: Seq<u8>,
}

impl View for SavedAssociation {
    type V = Association;

    open spec fn view(&self) -> Association {
        Association { id: self.id@, public: self.public@, secret: self.secret@ }
    }
}

/// The settings after an association was stored.
pub open spec fn with_association(s: Map<Seq<char>, Seq<char>>, a: Association) -> Map<
    Seq<char>,
    Seq<char>,
> {
    s.insert("kpxc_association_id"@, a.id).insert("kpxc_id_public_key"@, a.public).insert(
        "kpxc_id_secret_key"@,
        encoding::encoded(a.secret),
    )
}

/// Whether a key is set to something.
pub open spec fn filled(s: Map<Seq<char>, Seq<char>>, key: Seq<char>) -> bool {
    s.dom().contains(key) && s[key].len() > 0
}

/// The association in the settings, if there is a whole one.
pub open spec fn stored_association(s: Map<Seq<char>, Seq<char>>) -> Option<Association> {
    if filled(s, "kpxc_association_id"@) && filled(s, "kpxc_id_public_key"@) && filled(
        s,
        "kpxc_id_secret_key"@,
    ) {
        match unarmoured(s["kpxc_id_secret_key"@]) {
            Some(secret) => Some(
                Association {
                    id: s["kpxc_association_id"@],
                    public: s["kpxc_id_public_key"@],
                    secret,
                },
            ),
            None => None,
        }
    } else {
        None
    }
}

/// Stores an association.
pub fn save_association(s: &mut Settings, id: &str, public: &str, secret: &[u8])
    ensures
        final(s)@ == with_association(
            old(s)@,
            (Association { id: id@, public: public@, secret: secret@ }),
        ),
{
    settings::set_setting(s, "kpxc_association_id", id);
    settings::set_setting(s, "kpxc_id_public_key", public);
    let armoured = crypto::base64_text(secret);
    settings::set_setting(s, "kpxc_id_secret_key", armoured.as_str());
}

/// Reads the stored association, if there is a whole one.
pub fn load_association(s: &Settings) -> (r: Option<SavedAssociation>)
    ensures
        match r {
            Some(a) => stored_association(s@) == Some(a@),
            None => stored_association(s@) is None,
        },
{
    let id = match settings::get_setting(s, "kpxc_association_id") {
        Some(v) => v,
        None => {
            return None;
        },
    };
    let public = match settings::get_setting(s, "kpxc_id_public_key") {
        Some(v) => v,
        None => {
            return None;
        },
    };
    let armoured = match settings::get_setting(s, "kpxc_id_secret_key") {
        Some(v) => v,
        None => {
            return None;
        },
    };
    if text::same(id.as_str(), "") || text::same(public.as_str(), "") || text::same(
        armoured.as_str(),
        "",
    ) {
        proof {
            reveal_strlit("");
        }
        return None;
    }
    proof {
        reveal_strlit("");
        assert(id@.len() > 0) by {
            if id@.len() == 0 {
                assert(id@ =~= ""@);
            }
        }
        assert(public@.len() > 0) by {
            if public@.len() == 0 {
                assert(public@ =~= ""@);
            }
        }
        assert(armoured@.len() > 0) by {
            if armoured@.len() == 0 {
                assert(armoured@ =~= ""@);
            }
        }
    }
    match unarmour(armoured.as_str()) {
        Ok(secret) => Some(SavedAssociation { id, public, secret }),
        Err(_) => None,
    }
}

proof fn lemma_association_keys()
    ensures
        "kpxc_association_id"@ != "kpxc_id_public_key"@,
        "kpxc_association_id"@ != "kpxc_id_secret_key"@,
        "kpxc_id_public_key"@ != "kpxc_id_secret_key"@,
{
    reveal_strlit("kpxc_association_id");
    reveal_strlit("kpxc_id_public_key");
    reveal_strlit("kpxc_id_secret_key");
    assert("kpxc_association_id"@[5] == 'a');
    assert("kpxc_id_public_key"@[5] == 'i');
    assert("kpxc_id_secret_key"@[5] == 'i');
    assert("kpxc_id_public_key"@[8] == 'p');
    assert("kpxc_id_secret_key"@[8] == 's');
}

/// A stored association is read back, and no other setting changes.
pub proof fn law_association_reads_back(s: Map<Seq<char>, Seq<char>>, a: Association)
    requires
        a.id.len() > 0,
        a.public.len() > 0,
        a.secret.len() > 0,
    ensures
        stored_association(with_association(s, a)) == Some(a),
        forall|key: Seq<char>|
            key != "kpxc_association_id"@ && key != "kpxc_id_public_key"@ && key
                != "kpxc_id_secret_key"@ ==> (#[trigger] with_association(s, a).dom().contains(key)
                <==> s.dom().contains(key)) && (s.dom().contains(key) ==> with_association(
                s,
                a,
            )[key] == s[key]),
{
    lemma_association_keys();
    law_unarmoured(a.secret);
    encoding::law_encoded_length(a.secret);
}

// Requests and replies.

fn member(key: &str, value: &str) -> (r: (String, String))
    ensures
        r.0@ == key@,
        r.1@ == value@,
{
    (key.to_owned(), value.to_owned())
}

/// Whether a message says that what it answers went well.
pub open spec fn succeeded(message: Seq<u8>) -> bool {
    json::json_text(message, "/success"@) == Some("true"@)
}

fn has_succeeded(message: &[u8]) -> (r: bool)
    ensures
        r == succeeded(message@),
{
    match json::text_at(message, "/success") {
        Some(v) => text::same(v.as_str(), "true"),
        None => false,
    }
}

/// The error in a message, or a default.
pub open spec fn error_in(message: Seq<u8>, default: Seq<char>) -> Seq<char> {
    match json::json_text(message, "/error"@) {
        Some(e) => "KeePassXC: "@ + e,
        None => "KeePassXC: "@ + default,
    }
}

fn error_of(message: &[u8], default: &str) -> (r: String)
    ensures
        r@ == error_in(message@, default@),
{
    match json::text_at(message, "/error") {
        Some(e) => text::joined("KeePassXC: ", e.as_str()),
        None => text::joined("KeePassXC: ", default),
    }
}

/// A request: the action, in the clear, around its sealed message.
pub open spec fn request(
    action: Seq<char>,
    inner: Seq<u8>,
    client_id: Seq<char>,
    host_pk: Seq<u8>,
    client_sk: Seq<u8>,
    nonce: Seq<u8>,
) -> Seq<u8> {
    json::json_object(
        seq![
            ("action"@, action),
            ("message"@, encoding::encoded(crypto::box_sealed(host_pk, client_sk, nonce, inner))),
            ("nonce"@, encoding::encoded(nonce)),
            ("clientID"@, client_id),
        ],
        Seq::empty(),
    )
}

/// What the host reads in a request, given its own secret key and the client's
/// public key: the sealed message.
pub open spec fn read_by_host(request: Seq<u8>, client_pk: Seq<u8>, host_sk: Seq<u8>) -> Option<
    Seq<u8>,
> {
    match (json::json_text(request, "/message"@), json::json_text(request, "/nonce"@)) {
        (Some(message), Some(sent)) => match (unarmoured(message), unarmoured(sent)) {
            (Some(data), Some(nonce)) => crypto::box_opened(client_pk, host_sk, nonce, data),
            _ => None,
        },
        _ => None,
    }
}

/// Whether the host, by whatever secret key belongs to its public key, reads
/// the message in a request.
pub open spec fn reaches_host(
    request: Seq<u8>,
    inner: Seq<u8>,
    host_pk: Seq<u8>,
    client_sk: Seq<u8>,
) -> bool {
    forall|host_sk: Seq<u8>|
        host_sk.len() == 32 && #[trigger] crypto::x25519_public(host_sk) == host_pk
            ==> read_by_host(request, crypto::x25519_public(client_sk), host_sk) == Some(inner)
}

proof fn lemma_request_keys()
    ensures
        "/"@ + "message"@ == "/message"@,
        "/"@ + "nonce"@ == "/nonce"@,
        json::plain("message"@),
        json::plain("nonce"@),
        "action"@.len() == 6,
        "message"@.len() == 7,
        "nonce"@.len() == 5,
        "clientID"@.len() == 8,
{
    reveal_strlit("/");
    reveal_strlit("action");
    reveal_strlit("message");
    reveal_strlit("/message");
    reveal_strlit("nonce");
    reveal_strlit("/nonce");
    reveal_strlit("clientID");
    assert("/"@ + "message"@ =~= "/message"@);
    assert("/"@ + "nonce"@ =~= "/nonce"@);
}

fn make_request(
    action: &str,
    inner: &[u8],
    client_id: &str,
    host_pk: &[u8; 32],
    client_sk: &[u8; 32],
    nonce: &[u8; 24],
) -> (r: Vec<u8>)
    ensures
        r@ == request(action@, inner@, client_id@, host_pk@, client_sk@, nonce@),
        reaches_host(r@, inner@, host_pk@, client_sk@),
{
    let (message, sent) = encrypt_message_with(inner, host_pk, client_sk, nonce);
    let mut fields: Vec<(String, String)> = Vec::new();
    fields.push(member("action", action));
    fields.push(member("message", message.as_str()));
    fields.push(member("nonce", sent.as_str()));
    fields.push(member("clientID", client_id));
    let none: Vec<(String, Vec<Vec<(String, String)>>)> = Vec::new();
    assert(json::pairs(fields@) =~= seq![
        ("action"@, action@),
        ("message"@, message@),
        ("nonce"@, sent@),
        ("clientID"@, client_id@),
    ]);
    assert(json::keyed_lists(none@) =~= Seq::empty());
    let r = json::object_bytes(&fields, &none);
    proof {
        lemma_request_keys();
        let texts = json::pairs(fields@);
        assert(json::lone(texts, json::keyed_lists(none@), 1));
        assert(json::lone(texts, json::keyed_lists(none@), 2));
        assert(texts[1].1 == message@);
        assert(texts[2].1 == sent@);
        assert(json::json_text(r@, "/message"@) == Some(message@));
        assert(json::json_text(r@, "/nonce"@) == Some(sent@));
    }
    r
}

// Setting up a connection.

/// An established connection.
pub struct KpxcSession {
    pub client_secret: [u8; 32],
    pub host_public: [u8; 32],
    /// The base64 encoding of 24 random bytes.
    pub client_id: String,
    /// The association with the open database.
    pub association: SavedAssociation,
}

/// An established connection, as values.
#[verifier::ext_equal]
pub ghost struct Session {
    pub client_secret: Seq<u8>,
    pub host_public: Seq<u8>,
    pub client_id: Seq<char>,
    pub association: Association,
}

impl View for KpxcSession {
    type V = Session;

    open spec fn view(&self) -> Session {
        Session {
            client_secret: self.client_secret@,
            host_public: self.host_public@,
            client_id: self.client_id@,
            association: self.association@,
        }
    }
}

/// A connection on its way: which reply is awaited.
pub enum Handshake {
    /// To the exchange of public keys.
    Keys { client_secret: [u8; 32], client_id: String },
    /// To the question whether a stored association still holds.
    Test {
        client_secret: [u8; 32],
        host_public: [u8; 32],
        client_id: String,
        nonce: [u8; 24],
        saved: SavedAssociation,
    },
    /// To the wish for a new association.
    Associate {
        client_secret: [u8; 32],
        host_public: [u8; 32],
        client_id: String,
        nonce: [u8; 24],
        id_secret: [u8; 32],
    },
}

/// A connection on its way, as values.
#[verifier::ext_equal]
pub ghost enum Stage {
    Keys { client_secret: Seq<u8>, client_id: Seq<char> },
    Test {
        client_secret: Seq<u8>,
        host_public: Seq<u8>,
        client_id: Seq<char>,
        nonce: Seq<u8>,
        saved: Association,
    },
    Associate {
        client_secret: Seq<u8>,
        host_public: Seq<u8>,
        client_id: Seq<char>,
        nonce: Seq<u8>,
        id_secret: Seq<u8>,
    },
}

impl View for Handshake {
    type V = Stage;

    open spec fn view(&self) -> Stage {
        match self {
            Handshake::Keys { client_secret, client_id } => Stage::Keys {
                client_secret: client_secret@,
                client_id: client_id@,
            },
            Handshake::Test { client_secret, host_public, client_id, nonce, saved } => Stage::Test {
                client_secret: client_secret@,
                host_public: host_public@,
                client_id: client_id@,
                nonce: nonce@,
                saved: saved@,
            },
            Handshake::Associate {
                client_secret,
                host_public,
                client_id,
                nonce,
                id_secret,
            } => Stage::Associate {
                client_secret: client_secret@,
                host_public: host_public@,
                client_id: client_id@,
                nonce: nonce@,
                id_secret: id_secret@,
            },
        }
    }
}

/// What to do next to set up a connection.
pub enum ConnectStep {
    /// Send the bytes, and await a reply for so many seconds.
    Send { bytes: Vec<u8>, timeout_secs: u64, next: Handshake },
    /// The connection is established.
    Done(KpxcSession),
    /// Give up, with the reason.
    Failed(String),
}

/// What to do next, as values.
#[verifier::ext_equal]
pub ghost enum Step {
    Send { bytes: Seq<u8>, timeout_secs: u64, next: Stage },
    Done(Session),
    Failed(Seq<char>),
}

impl View for ConnectStep {
    type V = Step;

    open spec fn view(&self) -> Step {
        match self {
            ConnectStep::Send { bytes, timeout_secs, next } => Step::Send {
                bytes: bytes@,
                timeout_secs: *timeout_secs,
                next: next@,
            },
            ConnectStep::Done(session) => Step::Done(session@),
            ConnectStep::Failed(reason) => Step::Failed(reason@),
        }
    }
}

/// How long a reply is awaited.
pub const REPLY_SECS: u64 = 5;

/// The first message, which names the session's public key in the clear.
pub open spec fn key_message(
    client_secret: Seq<u8>,
    client_id: Seq<char>,
    nonce: Seq<u8>,
) -> Seq<u8> {
    json::json_object(
        seq![
            ("action"@, "change-public-keys"@),
            ("publicKey"@, encoding::encoded(crypto::x25519_public(client_secret))),
            ("nonce"@, encoding::encoded(nonce)),
            ("clientID"@, client_id),
        ],
        Seq::empty(),
    )
}

/// The first step.
pub open spec fn first_step(client_secret: Seq<u8>, id_bytes: Seq<u8>, nonce: Seq<u8>) -> Step {
    let client_id = encoding::encoded(id_bytes);
    Step::Send {
        bytes: key_message(client_secret, client_id, nonce),
        timeout_secs: REPLY_SECS,
        next: Stage::Keys { client_secret, client_id },
    }
}

/// The error where there is no socket.
pub const NO_SOCKET: &'static str = "KeePassXC socket not found. Is KeePassXC running with browser integration enabled?";

/// Starts to connect, with the given random values. Returns the socket to
/// connect to, and the first step; an error if there is no socket.
pub fn connect_with(
    path: Option<String>,
    client_secret: [u8; 32],
    id_bytes: &[u8; 24],
    nonce: &[u8; 24],
) -> (r: Result<(String, ConnectStep), String>)
    ensures
        match r {
            Ok((socket, step)) => path is Some && socket@ == path->0@ && step@ == first_step(
                client_secret@,
                id_bytes@,
                nonce@,
            ),
            Err(e) => path is None && e@ == NO_SOCKET@,
        },
{
    let socket = match path {
        Some(path) => path,
        None => {
            return Err(NO_SOCKET.to_owned());
        },
    };
    let public = crypto::public_key(&client_secret);
    let armoured = crypto::base64_text(public.as_slice());
    let client_id = crypto::base64_text(id_bytes.as_slice());
    let sent = crypto::base64_text(nonce.as_slice());
    let mut fields: Vec<(String, String)> = Vec::new();
    fields.push(member("action", "change-public-keys"));
    fields.push(member("publicKey", armoured.as_str()));
    fields.push(member("nonce", sent.as_str()));
    fields.push(member("clientID", client_id.as_str()));
    let none: Vec<(String, Vec<Vec<(String, String)>>)> = Vec::new();
    assert(json::pairs(fields@) =~= seq![
        ("action"@, "change-public-keys"@),
        ("publicKey"@, armoured@),
        ("nonce"@, sent@),
        ("clientID"@, client_id@),
    ]);
    assert(json::keyed_lists(none@) =~= Seq::empty());
    let bytes = json::object_bytes(&fields, &none);
    Ok(
        (
            socket,
            ConnectStep::Send {
                bytes,
                timeout_secs: REPLY_SECS,
                next: Handshake::Keys { client_secret, client_id },
            },
        ),
    )
}

/// Starts to connect to KeePassXC, with a fresh session key. Returns the socket
/// to connect to, and the first step; an error if there is no socket.
pub fn connect(path: Option<String>) -> (r: Result<(String, ConnectStep), String>)
    ensures
        match r {
            Ok((socket, step)) => path is Some && socket@ == path->0@ && exists|
                client_secret: Seq<u8>,
                id_bytes: Seq<u8>,
                nonce: Seq<u8>,
            |
                client_secret.len() == 32 && id_bytes.len() == 24 && nonce.len() == 24 && step@
                    == #[trigger] first_step(client_secret, id_bytes, nonce),
            Err(e) => path is None && e@ == NO_SOCKET@,
        },
{
    let client_secret = crypto::generate_secret_key();
    let id_bytes = random_24_bytes();
    let nonce = random_24_bytes();
    let r = connect_with(path, client_secret, &id_bytes, &nonce);
    proof {
        assert(client_secret@.len() == 32 && id_bytes@.len() == 24 && nonce@.len() == 24);
    }
    r
}

/// The host's public key in its reply to the key exchange, or the error.
pub open spec fn host_key(reply: Seq<u8>) -> Result<Seq<u8>, Seq<char>> {
    if !succeeded(reply) {
        Err("Key exchange rejected by KeePassXC"@)
    } else {
        match json::json_text(reply, "/publicKey"@) {
            None => Err("No publicKey in response"@),
            Some(armoured) => match unarmoured(armoured) {
                None => Err("Invalid host public key"@),
                Some(key) => if key.len() != 32 {
                    Err("Invalid host public key length"@)
                } else {
                    Ok(key)
                },
            },
        }
    }
}

fn read_host_key(reply: &[u8]) -> (r: Result<[u8; 32], String>)
    ensures
        match r {
            Ok(key) => host_key(reply@) == Ok::<Seq<u8>, Seq<char>>(key@),
            Err(e) => host_key(reply@) == Err::<Seq<u8>, Seq<char>>(e@),
        },
{
    if !has_succeeded(reply) {
        return Err("Key exchange rejected by KeePassXC".to_owned());
    }
    let armoured = match json::text_at(reply, "/publicKey") {
        Some(v) => v,
        None => {
            return Err("No publicKey in response".to_owned());
        },
    };
    match unarmour(armoured.as_str()) {
        Ok(key) => {
            if key.len() != 32 {
                return Err("Invalid host public key length".to_owned());
            }
            Ok(array_32(&key))
        },
        Err(_) => Err("Invalid host public key".to_owned()),
    }
}

/// The message that asks whether an association still holds.
pub open spec fn test_message(saved: Association) -> Seq<u8> {
    json::json_object(
        seq![("action"@, "test-associate"@), ("id"@, saved.id), ("key"@, saved.public)],
        Seq::empty(),
    )
}

/// The message that asks for a new association.
pub open spec fn associate_message(client_secret: Seq<u8>, id_secret: Seq<u8>) -> Seq<u8> {
    json::json_object(
        seq![
            ("action"@, "associate"@),
            ("key"@, encoding::encoded(crypto::x25519_public(client_secret))),
            ("idKey"@, encoding::encoded(crypto::x25519_public(id_secret))),
        ],
        Seq::empty(),
    )
}

/// The step that asks whether an association still holds.
pub open spec fn test_step(
    client_secret: Seq<u8>,
    host_public: Seq<u8>,
    client_id: Seq<char>,
    nonce: Seq<u8>,
    saved: Association,
) -> Step {
    Step::Send {
        bytes: request(
            "test-associate"@,
            test_message(saved),
            client_id,
            host_public,
            client_secret,
            nonce,
        ),
        timeout_secs: REPLY_SECS,
        next: Stage::Test { client_secret, host_public, client_id, nonce, saved },
    }
}

/// The step that asks for a new association.
pub open spec fn associate_step(
    client_secret: Seq<u8>,
    host_public: Seq<u8>,
    client_id: Seq<char>,
    nonce: Seq<u8>,
    id_secret: Seq<u8>,
) -> Step {
    Step::Send {
        bytes: request(
            "associate"@,
            associate_message(client_secret, id_secret),
            client_id,
            host_public,
            client_secret,
            nonce,
        ),
        timeout_secs: REPLY_SECS,
        next: Stage::Associate { client_secret, host_public, client_id, nonce, id_secret },
    }
}

fn do_test(
    client_secret: [u8; 32],
    host_public: [u8; 32],
    client_id: String,
    nonce: [u8; 24],
    saved: SavedAssociation,
) -> (r: ConnectStep)
    ensures
        r@ == test_step(client_secret@, host_public@, client_id@, nonce@, saved@),
{
    let mut fields: Vec<(String, String)> = Vec::new();
    fields.push(member("action", "test-associate"));
    fields.push(member("id", saved.id.as_str()));
    fields.push(member("key", saved.public.as_str()));
    let none: Vec<(String, Vec<Vec<(String, String)>>)> = Vec::new();
    assert(json::pairs(fields@) =~= seq![
        ("action"@, "test-associate"@),
        ("id"@, saved.id@),
        ("key"@, saved.public@),
    ]);
    assert(json::keyed_lists(none@) =~= Seq::empty());
    let inner = json::object_bytes(&fields, &none);
    let bytes = make_request(
        "test-associate",
        inner.as_slice(),
        client_id.as_str(),
        &host_public,
        &client_secret,
        &nonce,
    );
    ConnectStep::Send {
        bytes,
        timeout_secs: REPLY_SECS,
        next: Handshake::Test { client_secret, host_public, client_id, nonce, saved },
    }
}

/// Asks for a new association, under a new identification key. KeePassXC will
/// prompt the user.
pub fn do_associate(
    client_secret: [u8; 32],
    host_public: [u8; 32],
    client_id: String,
    nonce: [u8; 24],
    id_secret: [u8; 32],
) -> (r: ConnectStep)
    ensures
        r@ == associate_step(client_secret@, host_public@, client_id@, nonce@, id_secret@),
{
    let session_public = crypto::public_key(&client_secret);
    let key = crypto::base64_text(session_public.as_slice());
    let id_public = crypto::public_key(&id_secret);
    let id_key = crypto::base64_text(id_public.as_slice());
    let mut fields: Vec<(String, String)> = Vec::new();
    fields.push(member("action", "associate"));
    fields.push(member("key", key.as_str()));
    fields.push(member("idKey", id_key.as_str()));
    let none: Vec<(String, Vec<Vec<(String, String)>>)> = Vec::new();
    assert(json::pairs(fields@) =~= seq![
        ("action"@, "associate"@),
        ("key"@, key@),
        ("idKey"@, id_key@),
    ]);
    assert(json::keyed_lists(none@) =~= Seq::empty());
    let inner = json::object_bytes(&fields, &none);
    let bytes = make_request(
        "associate",
        inner.as_slice(),
        client_id.as_str(),
        &host_public,
        &client_secret,
        &nonce,
    );
    ConnectStep::Send {
        bytes,
        timeout_secs: REPLY_SECS,
        next: Handshake::Associate { client_secret, host_public, client_id, nonce, id_secret },
    }
}

/// Whether a reply confirms an association: in its sealed message where it has
/// one, else in the clear.
pub open spec fn confirmed(
    reply: Seq<u8>,
    nonce: Seq<u8>,
    host_public: Seq<u8>,
    client_secret: Seq<u8>,
) -> bool {
    match json::json_text(reply, "/message"@) {
        Some(message) => opened(message, nonce, host_public, client_secret) matches Ok(inner)
            && succeeded(inner),
        None => succeeded(reply),
    }
}

fn is_confirmed(
    reply: &[u8],
    nonce: &[u8; 24],
    host_public: &[u8; 32],
    client_secret: &[u8; 32],
) -> (r: bool)
    ensures
        r == confirmed(reply@, nonce@, host_public@, client_secret@),
{
    match json::text_at(reply, "/message") {
        Some(message) => match decrypt_message(
            message.as_str(),
            nonce,
            host_public,
            client_secret,
        ) {
            Ok(inner) => has_succeeded(inner.as_slice()),
            Err(_) => false,
        },
        None => has_succeeded(reply),
    }
}

/// The identifier under which a database agreed to an association, or the
/// error.
pub open spec fn agreed(
    reply: Seq<u8>,
    nonce: Seq<u8>,
    host_public: Seq<u8>,
    client_secret: Seq<u8>,
) -> Result<Seq<char>, Seq<char>> {
    match json::json_text(reply, "/message"@) {
        None => Err("No message in associate response. User may have denied the request."@),
        Some(message) => match opened(message, nonce, host_public, client_secret) {
            Err(e) => Err(e),
            Ok(inner) => if !succeeded(inner) {
                Err(error_in(inner, "Association denied"@))
            } else {
                match json::json_text(inner, "/id"@) {
                    Some(id) => Ok(id),
                    None => Ok("wynn-browser"@),
                }
            },
        },
    }
}

fn read_agreement(
    reply: &[u8],
    nonce: &[u8; 24],
    host_public: &[u8; 32],
    client_secret: &[u8; 32],
) -> (r: Result<String, String>)
    ensures
        match r {
            Ok(id) => agreed(reply@, nonce@, host_public@, client_secret@) == Ok::<
                Seq<char>,
                Seq<char>,
            >(id@),
            Err(e) => agreed(reply@, nonce@, host_public@, client_secret@) == Err::<
                Seq<char>,
                Seq<char>,
            >(e@),
        },
{
    let message = match json::text_at(reply, "/message") {
        Some(message) => message,
        None => {
            return Err(
                "No message in associate response. User may have denied the request.".to_owned(),
            );
        },
    };
    match decrypt_message(message.as_str(), nonce, host_public, client_secret) {
        Err(e) => Err(e),
        Ok(inner) => {
            if !has_succeeded(inner.as_slice()) {
                return Err(error_of(inner.as_slice(), "Association denied"));
            }
            match json::text_at(inner.as_slice(), "/id") {
                Some(id) => Ok(id),
                None => Ok("wynn-browser".to_owned()),
            }
        },
    }
}

/// The association that an identification key and a database's identifier
/// make.
pub open spec fn new_association(id: Seq<char>, id_secret: Seq<u8>) -> Association {
    Association {
        id,
        public: encoding::encoded(crypto::x25519_public(id_secret)),
        secret: id_secret,
    }
}

/// What to do after a reply, and the settings then. The random values are for
/// the message that may follow, and the identification key in it.
pub open spec fn next_step(
    stage: Stage,
    s: Map<Seq<char>, Seq<char>>,
    reply: Seq<u8>,
    new_nonce: Seq<u8>,
    new_secret: Seq<u8>,
) -> (Step, Map<Seq<char>, Seq<char>>) {
    match stage {
        Stage::Keys { client_secret, client_id } => match host_key(reply) {
            Err(e) => (Step::Failed(e), s),
            Ok(host_public) => match stored_association(s) {
                Some(saved) => (
                    test_step(client_secret, host_public, client_id, new_nonce, saved),
                    s,
                ),
                None => (
                    associate_step(client_secret, host_public, client_id, new_nonce, new_secret),
                    s,
                ),
            },
        },
        Stage::Test { client_secret, host_public, client_id, nonce, saved } => if confirmed(
            reply,
            nonce,
            host_public,
            client_secret,
        ) {
            (Step::Done(Session { client_secret, host_public, client_id, association: saved }), s)
        } else {
            (associate_step(client_secret, host_public, client_id, new_nonce, new_secret), s)
        },
        Stage::Associate { client_secret, host_public, client_id, nonce, id_secret } => match agreed(
            reply,
            nonce,
            host_public,
            client_secret,
        ) {
            Err(e) => (Step::Failed(e), s),
            Ok(id) => {
                let association = new_association(id, id_secret);
                (
                    Step::Done(Session { client_secret, host_public, client_id, association }),
                    with_association(s, association),
                )
            },
        },
    }
}

/// Goes on to connect after a reply, with the given random values.
pub fn continue_connect_with(
    h: Handshake,
    s: &mut Settings,
    reply: &[u8],
    new_nonce: [u8; 24],
    new_secret: [u8; 32],
) -> (r: ConnectStep)
    ensures
        (r@, final(s)@) == next_step(h@, old(s)@, reply@, new_nonce@, new_secret@),
{
    match h {
        Handshake::Keys { client_secret, client_id } => {
            let host_public = match read_host_key(reply) {
                Ok(key) => key,
                Err(e) => {
                    return ConnectStep::Failed(e);
                },
            };
            match load_association(s) {
                Some(saved) => do_test(client_secret, host_public, client_id, new_nonce, saved),
                None => do_associate(client_secret, host_public, client_id, new_nonce, new_secret),
            }
        },
        Handshake::Test { client_secret, host_public, client_id, nonce, saved } => {
            if is_confirmed(reply, &nonce, &host_public, &client_secret) {
                return ConnectStep::Done(
                    KpxcSession { client_secret, host_public, client_id, association: saved },
                );
            }
            do_associate(client_secret, host_public, client_id, new_nonce, new_secret)
        },
        Handshake::Associate { client_secret, host_public, client_id, nonce, id_secret } => {
            let id = match read_agreement(reply, &nonce, &host_public, &client_secret) {
                Ok(id) => id,
                Err(e) => {
                    return ConnectStep::Failed(e);
                },
            };
            let id_public = crypto::public_key(&id_secret);
            let public = crypto::base64_text(id_public.as_slice());
            let mut secret: Vec<u8> = Vec::new();
            secret.extend_from_slice(id_secret.as_slice());
            save_association(s, id.as_str(), public.as_str(), secret.as_slice());
            assert(secret@ =~= id_secret@);
            ConnectStep::Done(
                KpxcSession {
                    client_secret,
                    host_public,
                    client_id,
                    association: SavedAssociation { id, public, secret },
                },
            )
        },
    }
}

/// Goes on to connect after a reply.
pub fn continue_connect(h: Handshake, s: &mut Settings, reply: &[u8]) -> (r: ConnectStep)
    ensures
        exists|new_nonce: Seq<u8>, new_secret: Seq<u8>|
            new_nonce.len() == 24 && new_secret.len() == 32 && (r@, final(s)@)
                == #[trigger] next_step(h@, old(s)@, reply@, new_nonce, new_secret),
{
    let new_nonce = random_24_bytes();
    let new_secret = crypto::generate_secret_key();
    let r = continue_connect_with(h, s, reply, new_nonce, new_secret);
    proof {
        assert(new_nonce@.len() == 24 && new_secret@.len() == 32);
    }
    r
}

/// A connection keeps the keys and the client id that it began with, at every
/// step.
pub proof fn law_handshake_keeps_identity(
    stage: Stage,
    s: Map<Seq<char>, Seq<char>>,
    reply: Seq<u8>,
    new_nonce: Seq<u8>,
    new_secret: Seq<u8>,
)
    ensures
        match next_step(stage, s, reply, new_nonce, new_secret).0 {
            Step::Send { next, .. } => next.client() == stage.client() && (stage !is Keys
                ==> next.host() == stage.host()),
            Step::Done(session) => (session.client_secret, session.client_id) == stage.client() && (
            stage !is Keys ==> Some(session.host_public) == stage.host()),
            Step::Failed(_) => true,
        },
{
}

/// Every reply brings a connection nearer to its end: it is set up, or given
/// up, after three replies at most, and never on the first alone.
pub proof fn law_handshake_ends(
    stage: Stage,
    s: Map<Seq<char>, Seq<char>>,
    reply: Seq<u8>,
    new_nonce: Seq<u8>,
    new_secret: Seq<u8>,
)
    ensures
        stage is Keys ==> !(next_step(stage, s, reply, new_nonce, new_secret).0 is Done),
        match next_step(stage, s, reply, new_nonce, new_secret).0 {
            Step::Send { next, .. } => next.rank() < stage.rank(),
            _ => true,
        },
{
}

/// A connection is established only on a message sealed between the two keys,
/// with the nonce that follows the one in use, that tells of success; or, for
/// a stored association, on a reply that tells of success in the clear and
/// holds no message.
pub proof fn law_established_by_the_host(
    stage: Stage,
    s: Map<Seq<char>, Seq<char>>,
    reply: Seq<u8>,
    new_nonce: Seq<u8>,
    new_secret: Seq<u8>,
)
    requires
        next_step(stage, s, reply, new_nonce, new_secret).0 is Done,
    ensures
        ({
            let session = next_step(stage, s, reply, new_nonce, new_secret).0->Done_0;
            ||| json::json_text(reply, "/message"@) is None && stage is Test && succeeded(reply)
            ||| json::json_text(reply, "/message"@) is Some && unarmoured(
                json::json_text(reply, "/message"@)->0,
            ) is Some && (crypto::box_opened(
                session.host_public,
                session.client_secret,
                following(stage.nonce()),
                unarmoured(json::json_text(reply, "/message"@)->0)->0,
            ) matches Some(inner) && succeeded(inner))
        }),
{
}

impl Stage {
    /// The session's secret key and client id.
    pub open spec fn client(self) -> (Seq<u8>, Seq<char>) {
        match self {
            Stage::Keys { client_secret, client_id } => (client_secret, client_id),
            Stage::Test { client_secret, client_id, .. } => (client_secret, client_id),
            Stage::Associate { client_secret, client_id, .. } => (client_secret, client_id),
        }
    }

    /// The host's public key, once it is known.
    pub open spec fn host(self) -> Option<Seq<u8>> {
        match self {
            Stage::Keys { .. } => None,
            Stage::Test { host_public, .. } => Some(host_public),
            Stage::Associate { host_public, .. } => Some(host_public),
        }
    }

    /// The nonce of the sealed message that was sent last; none before the first.
    pub open spec fn nonce(self) -> Seq<u8> {
        match self {
            Stage::Keys { .. } => Seq::empty(),
            Stage::Test { nonce, .. } => nonce,
            Stage::Associate { nonce, .. } => nonce,
        }
    }

    /// How many replies may follow.
    pub open spec fn rank(self) -> nat {
        match self {
            Stage::Keys { .. } => 3,
            Stage::Test { .. } => 2,
            Stage::Associate { .. } => 1,
        }
    }
}

/// After the user agreed to an association under a name, the next connection
/// asks whether it still holds, and does not ask the user again.
pub proof fn law_association_is_reused(
    stage: Stage,
    s: Map<Seq<char>, Seq<char>>,
    reply: Seq<u8>,
    new_nonce: Seq<u8>,
    new_secret: Seq<u8>,
    later: Stage,
    later_reply: Seq<u8>,
)
    requires
        stage is Associate,
        stage->Associate_id_secret.len() > 0,
        next_step(stage, s, reply, new_nonce, new_secret).0 matches Step::Done(session)
            && session.association.id.len() > 0 && session.association.public.len() > 0,
        later is Keys,
        host_key(later_reply) is Ok,
    ensures
        ({
            let session = next_step(stage, s, reply, new_nonce, new_secret).0->Done_0;
            let kept = next_step(stage, s, reply, new_nonce, new_secret).1;
            next_step(later, kept, later_reply, new_nonce, new_secret).0 == test_step(
                later->Keys_client_secret,
                host_key(later_reply)->Ok_0,
                later->Keys_client_id,
                new_nonce,
                session.association,
            )
        }),
{
    let a = next_step(stage, s, reply, new_nonce, new_secret).0->Done_0.association;
    law_association_reads_back(s, a);
}

// The client.

/// The client: its connection, if there is one.
pub struct Kpxc {
    session: Option<KpxcSession>,
}

impl View for Kpxc {
    type V = Option<Session>;

    closed spec fn view(&self) -> Option<Session> {
        match self.session {
            Some(session) => Some(session@),
            None => None,
        }
    }
}

impl Kpxc {
    /// Not connected.
    pub fn new() -> (r: Self)
        ensures
            r@ is None,
    {
        Kpxc { session: None }
    }

    /// Takes up an established connection.
    pub fn set_session(&mut self, session: KpxcSession)
        ensures
            final(self)@ == Some(session@),
    {
        self.session = Some(session);
    }
}

/// Check whether we have an active session.
pub fn is_connected(k: &Kpxc) -> (r: bool)
    ensures
        r == (k@ is Some),
{
    k.session.is_some()
}

/// Drop the current session.
pub fn disconnect(k: &mut Kpxc)
    ensures
        final(k)@ is None,
{
    k.session = None;
}

/// What is needed to be connected: nothing, or to connect to the socket. An
/// error if there is none.
pub fn ensure_connected(k: &Kpxc, path: Option<String>) -> (r: Result<Option<String>, String>)
    ensures
        match r {
            Ok(None) => k@ is Some,
            Ok(Some(socket)) => k@ is None && path is Some && socket@ == path->0@,
            Err(e) => k@ is None && path is None && e@ == NO_SOCKET@,
        },
{
    if is_connected(k) {
        return Ok(None);
    }
    match path {
        Some(path) => Ok(Some(path)),
        None => Err(NO_SOCKET.to_owned()),
    }
}

/// The error where a request is made without a connection.
pub const NOT_CONNECTED: &'static str = "Not connected";

/// A request in a session.
pub open spec fn session_request(
    session: Session,
    action: Seq<char>,
    inner: Seq<u8>,
    nonce: Seq<u8>,
) -> Seq<u8> {
    request(
        action,
        inner,
        session.client_id,
        session.host_public,
        session.client_secret,
        nonce,
    )
}

/// The error that a reply tells in the clear, such as that the database is
/// locked.
pub open spec fn clear_error(reply: Seq<u8>) -> Option<Seq<char>> {
    match json::json_text(reply, "/error"@) {
        Some(e) => if e.len() > 0 {
            Some("KeePassXC: "@ + e)
        } else {
            None
        },
        None => None,
    }
}

fn read_clear_error(reply: &[u8]) -> (r: Option<String>)
    ensures
        match r {
            Some(e) => clear_error(reply@) == Some(e@),
            None => clear_error(reply@) is None,
        },
{
    match json::text_at(reply, "/error") {
        Some(e) => {
            proof {
                reveal_strlit("");
            }
            if text::same(e.as_str(), "") {
                None
            } else {
                assert(e@.len() > 0) by {
                    if e@.len() == 0 {
                        assert(e@ =~= ""@);
                    }
                }
                Some(text::joined("KeePassXC: ", e.as_str()))
            }
        },
        None => None,
    }
}

// Asking for logins.

/// A credential entry returned by KeePassXC.
pub struct KpxcEntry {
    pub name: String,
    pub login: String,
    pub password: String,
    pub uuid: String,
}

/// A credential entry, as values.
#[verifier::ext_equal]
pub ghost struct Entry {
    pub name: Seq<char>,
    pub login: Seq<char>,
    pub password: Seq<char>,
    pub uuid: Seq<char>,
}

impl View for KpxcEntry {
    type V = Entry;

    open spec fn view(&self) -> Entry {
        Entry {
            name: self.name@,
            login: self.login@,
            password: self.password@,
            uuid: self.uuid@,
        }
    }
}

/// The entries, as values.
pub open spec fn entries_of(v: Seq<KpxcEntry>) -> Seq<Entry> {
    v.map_values(|e: KpxcEntry| e@)
}

proof fn lemma_login_keys()
    ensures
        "/"@ + "url"@ == "/url"@,
        "/"@ + "login"@ == "/login"@,
        "/"@ + "password"@ == "/password"@,
        json::plain("url"@),
        json::plain("login"@),
        json::plain("password"@),
        "action"@.len() == 6,
        "url"@.len() == 3,
        "keys"@.len() == 4,
        "submitUrl"@.len() == 9,
        "id"@.len() == 2,
        "login"@.len() == 5,
        "password"@.len() == 8,
        "downloadFavicon"@.len() == 15,
{
    reveal_strlit("/");
    reveal_strlit("action");
    reveal_strlit("url");
    reveal_strlit("/url");
    reveal_strlit("keys");
    reveal_strlit("submitUrl");
    reveal_strlit("id");
    reveal_strlit("login");
    reveal_strlit("/login");
    reveal_strlit("password");
    reveal_strlit("/password");
    reveal_strlit("downloadFavicon");
    assert("/"@ + "url"@ =~= "/url"@);
    assert("/"@ + "login"@ =~= "/login"@);
    assert("/"@ + "password"@ =~= "/password"@);
}

/// The message that asks for the logins for a URL.
pub open spec fn logins_message(association: Association, url: Seq<char>) -> Seq<u8> {
    json::json_object(
        seq![("action"@, "get-logins"@), ("url"@, url)],
        seq![("keys"@, seq![seq![("id"@, association.id), ("key"@, association.public)]])],
    )
}

/// Whether a request reaches the host of a session, and asks for the logins for
/// a URL there.
pub open spec fn asks_logins(session: Session, request: Seq<u8>, url: Seq<char>) -> bool {
    let inner = logins_message(session.association, url);
    &&& reaches_host(request, inner, session.host_public, session.client_secret)
    &&& json::json_text(inner, "/url"@) == Some(url)
}

/// The request for the logins for a URL, sealed with the given nonce. An error
/// without a connection.
pub fn ask_logins_with(k: &Kpxc, url: &str, nonce: &[u8; 24]) -> (r: Result<Vec<u8>, String>)
    ensures
        match r {
            Ok(bytes) => k@ is Some && bytes@ == session_request(
                k@->0,
                "get-logins"@,
                logins_message(k@->0.association, url@),
                nonce@,
            ) && asks_logins(k@->0, bytes@, url@),
            Err(e) => k@ is None && e@ == NOT_CONNECTED@,
        },
{
    match &k.session {
        None => Err(NOT_CONNECTED.to_owned()),
        Some(session) => {
            let mut fields: Vec<(String, String)> = Vec::new();
            fields.push(member("action", "get-logins"));
            fields.push(member("url", url));
            let mut key: Vec<(String, String)> = Vec::new();
            key.push(member("id", session.association.id.as_str()));
            key.push(member("key", session.association.public.as_str()));
            assert(json::pairs(key@) =~= seq![
                ("id"@, session.association.id@),
                ("key"@, session.association.public@),
            ]);
            let mut list: Vec<Vec<(String, String)>> = Vec::new();
            list.push(key);
            let ghost objects = seq![
                seq![
                    ("id"@, session.association.id@),
                    ("key"@, session.association.public@),
                ],
            ];
            assert(json::objects(list@) =~= objects);
            let mut keys: Vec<(String, Vec<Vec<(String, String)>>)> = Vec::new();
            let name = "keys".to_owned();
            keys.push((name, list));
            assert(json::pairs(fields@) =~= seq![("action"@, "get-logins"@), ("url"@, url@)]);
            assert(json::keyed_lists(keys@) =~= seq![("keys"@, objects)]);
            let inner = json::object_bytes(&fields, &keys);
            proof {
                lemma_login_keys();
                let texts = json::pairs(fields@);
                assert(json::lone(texts, json::keyed_lists(keys@), 1));
                assert(texts[1].1 == url@);
            }
            Ok(
                make_request(
                    "get-logins",
                    inner.as_slice(),
                    session.client_id.as_str(),
                    &session.host_public,
                    &session.client_secret,
                    nonce,
                ),
            )
        },
    }
}

/// The request for the logins for a URL, and the fresh nonce that it was sealed
/// with. An error without a connection.
pub fn ask_logins(k: &Kpxc, url: &str) -> (r: Result<(Vec<u8>, [u8; 24]), String>)
    ensures
        match r {
            Ok((bytes, nonce)) => k@ is Some && bytes@ == session_request(
                k@->0,
                "get-logins"@,
                logins_message(k@->0.association, url@),
                nonce@,
            ) && asks_logins(k@->0, bytes@, url@),
            Err(e) => k@ is None && e@ == NOT_CONNECTED@,
        },
{
    let nonce = random_24_bytes();
    match ask_logins_with(k, url, &nonce) {
        Ok(bytes) => Ok((bytes, nonce)),
        Err(e) => Err(e),
    }
}

/// The pointer to a member of an entry.
pub open spec fn entry_pointer(i: nat, key: Seq<char>) -> Seq<char> {
    "/entries/"@ + text::decimal(i) + "/"@ + key
}

/// The text at a pointer, or nothing.
pub open spec fn text_or_empty(message: Seq<u8>, pointer: Seq<char>) -> Seq<char> {
    match json::json_text(message, pointer) {
        Some(t) => t,
        None => Seq::empty(),
    }
}

/// An entry of a message. What it lacks is empty.
pub open spec fn entry_at(message: Seq<u8>, i: nat) -> Entry {
    Entry {
        name: text_or_empty(message, entry_pointer(i, "name"@)),
        login: text_or_empty(message, entry_pointer(i, "login"@)),
        password: text_or_empty(message, entry_pointer(i, "password"@)),
        uuid: text_or_empty(message, entry_pointer(i, "uuid"@)),
    }
}

/// The entries of a message.
pub open spec fn entries_in(message: Seq<u8>) -> Seq<Entry> {
    match json::json_count(message, "/entries"@) {
        Some(n) => Seq::new(n, |i: int| entry_at(message, i as nat)),
        None => Seq::empty(),
    }
}

fn entry_text(message: &[u8], i: usize, key: &str) -> (r: String)
    ensures
        r@ == text_or_empty(message@, entry_pointer(i as nat, key@)),
{
    let index = text::decimal_of(i as u128);
    let mut pointer = text::joined("/entries/", index.as_str());
    pointer.append("/");
    pointer.append(key);
    match json::text_at(message, pointer.as_str()) {
        Some(t) => t,
        None => {
            let empty = String::new();
            assert(empty@ =~= Seq::empty());
            empty
        },
    }
}

fn read_entries(message: &[u8]) -> (r: Vec<KpxcEntry>)
    ensures
        entries_of(r@) == entries_in(message@),
{
    let mut r: Vec<KpxcEntry> = Vec::new();
    let n = match json::count_at(message, "/entries") {
        Some(n) => n,
        None => {
            assert(entries_of(r@) =~= Seq::empty());
            return r;
        },
    };
    let mut i: usize = 0;
    while i < n
        invariant
            i <= n,
            r@.len() == i,
            forall|j: int| 0 <= j < i ==> #[trigger] r@[j]@ == entry_at(message@, j as nat),
        decreases n - i,
    {
        r.push(
            KpxcEntry {
                name: entry_text(message, i, "name"),
                login: entry_text(message, i, "login"),
                password: entry_text(message, i, "password"),
                uuid: entry_text(message, i, "uuid"),
            },
        );
        i += 1;
    }
    assert(entries_of(r@) =~= entries_in(message@));
    r
}

/// The logins that a reply gives, or the error.
pub open spec fn logins(session: Session, nonce: Seq<u8>, reply: Seq<u8>) -> Result<
    Seq<Entry>,
    Seq<char>,
> {
    match clear_error(reply) {
        Some(e) => Err(e),
        None => match json::json_text(reply, "/message"@) {
            None => Err("No message in get-logins response"@),
            Some(message) => match opened(
                message,
                nonce,
                session.host_public,
                session.client_secret,
            ) {
                Err(e) => Err(e),
                Ok(inner) => if succeeded(inner) {
                    Ok(entries_in(inner))
                } else {
                    Err(error_in(inner, "No logins found"@))
                },
            },
        },
    }
}

/// The credentials in the reply to a request for logins that was sealed with
/// `nonce`.
pub fn get_logins(k: &Kpxc, nonce: &[u8; 24], reply: &[u8]) -> (r: Result<Vec<KpxcEntry>, String>)
    ensures
        match r {
            Ok(entries) => k@ is Some && logins(k@->0, nonce@, reply@) == Ok::<
                Seq<Entry>,
                Seq<char>,
            >(entries_of(entries@)),
            Err(e) => if k@ is Some {
                logins(k@->0, nonce@, reply@) == Err::<Seq<Entry>, Seq<char>>(e@)
            } else {
                e@ == NOT_CONNECTED@
            },
        },
{
    match &k.session {
        None => Err(NOT_CONNECTED.to_owned()),
        Some(session) => {
            if let Some(e) = read_clear_error(reply) {
                return Err(e);
            }
            let message = match json::text_at(reply, "/message") {
                Some(message) => message,
                None => {
                    return Err("No message in get-logins response".to_owned());
                },
            };
            match decrypt_message(
                message.as_str(),
                nonce,
                &session.host_public,
                &session.client_secret,
            ) {
                Err(e) => Err(e),
                Ok(inner) => {
                    if !has_succeeded(inner.as_slice()) {
                        return Err(error_of(inner.as_slice(), "No logins found"));
                    }
                    Ok(read_entries(inner.as_slice()))
                },
            }
        },
    }
}

/// Check if KeePassXC has logins for a URL, given what asking for them came to.
pub fn has_logins_for(found: &Result<Vec<KpxcEntry>, String>) -> (r: bool)
    ensures
        r == (found is Ok && found->Ok_0@.len() > 0),
{
    match found {
        Ok(entries) => entries.len() > 0,
        Err(_) => false,
    }
}

// Saving a login.

/// The message that saves a login.
pub open spec fn save_message(
    association: Association,
    url: Seq<char>,
    username: Seq<char>,
    password: Seq<char>,
) -> Seq<u8> {
    json::json_object(
        seq![
            ("action"@, "set-login"@),
            ("url"@, url),
            ("submitUrl"@, url),
            ("id"@, association.id),
            ("login"@, username),
            ("password"@, password),
            ("downloadFavicon"@, "true"@),
        ],
        Seq::empty(),
    )
}

/// Whether a request reaches the host of a session, and gives it a login to
/// save there.
pub open spec fn asks_to_save(
    session: Session,
    request: Seq<u8>,
    url: Seq<char>,
    username: Seq<char>,
    password: Seq<char>,
) -> bool {
    let inner = save_message(session.association, url, username, password);
    &&& reaches_host(request, inner, session.host_public, session.client_secret)
    &&& json::json_text(inner, "/url"@) == Some(url)
    &&& json::json_text(inner, "/login"@) == Some(username)
    &&& json::json_text(inner, "/password"@) == Some(password)
}

/// The request that saves a login, sealed with the given nonce. An error
/// without a connection.
pub fn ask_save_login_with(
    k: &Kpxc,
    url: &str,
    username: &str,
    password: &str,
    nonce: &[u8; 24],
) -> (r: Result<Vec<u8>, String>)
    ensures
        match r {
            Ok(bytes) => k@ is Some && bytes@ == session_request(
                k@->0,
                "set-login"@,
                save_message(k@->0.association, url@, username@, password@),
                nonce@,
            ) && asks_to_save(k@->0, bytes@, url@, username@, password@),
            Err(e) => k@ is None && e@ == NOT_CONNECTED@,
        },
{
    match &k.session {
        None => Err(NOT_CONNECTED.to_owned()),
        Some(session) => {
            let mut fields: Vec<(String, String)> = Vec::new();
            fields.push(member("action", "set-login"));
            fields.push(member("url", url));
            fields.push(member("submitUrl", url));
            fields.push(member("id", session.association.id.as_str()));
            fields.push(member("login", username));
            fields.push(member("password", password));
            fields.push(member("downloadFavicon", "true"));
            let none: Vec<(String, Vec<Vec<(String, String)>>)> = Vec::new();
            assert(json::pairs(fields@) =~= seq![
                ("action"@, "set-login"@),
                ("url"@, url@),
                ("submitUrl"@, url@),
                ("id"@, session.association.id@),
                ("login"@, username@),
                ("password"@, password@),
                ("downloadFavicon"@, "true"@),
            ]);
            assert(json::keyed_lists(none@) =~= Seq::empty());
            let inner = json::object_bytes(&fields, &none);
            proof {
                lemma_login_keys();
                let texts = json::pairs(fields@);
                assert(json::lone(texts, json::keyed_lists(none@), 1));
                assert(json::lone(texts, json::keyed_lists(none@), 4));
                assert(json::lone(texts, json::keyed_lists(none@), 5));
                assert(texts[1].1 == url@);
                assert(texts[4].1 == username@);
                assert(texts[5].1 == password@);
            }
            Ok(
                make_request(
                    "set-login",
                    inner.as_slice(),
                    session.client_id.as_str(),
                    &session.host_public,
                    &session.client_secret,
                    nonce,
                ),
            )
        },
    }
}

/// The request that saves a login, and the fresh nonce that it was sealed with.
/// An error without a connection.
pub fn ask_save_login(k: &Kpxc, url: &str, username: &str, password: &str) -> (r: Result<
    (Vec<u8>, [u8; 24]),
    String,
>)
    ensures
        match r {
            Ok((bytes, nonce)) => k@ is Some && bytes@ == session_request(
                k@->0,
                "set-login"@,
                save_message(k@->0.association, url@, username@, password@),
                nonce@,
            ) && asks_to_save(k@->0, bytes@, url@, username@, password@),
            Err(e) => k@ is None && e@ == NOT_CONNECTED@,
        },
{
    let nonce = random_24_bytes();
    match ask_save_login_with(k, url, username, password, &nonce) {
        Ok(bytes) => Ok((bytes, nonce)),
        Err(e) => Err(e),
    }
}

/// The error that the reply to a saved login tells of. A reply without a
/// message is taken for success.
pub open spec fn save_error(session: Session, nonce: Seq<u8>, reply: Seq<u8>) -> Option<Seq<char>> {
    match clear_error(reply) {
        Some(e) => Some(e),
        None => match json::json_text(reply, "/message"@) {
            None => None,
            Some(message) => match opened(
                message,
                nonce,
                session.host_public,
                session.client_secret,
            ) {
                Err(e) => Some(e),
                Ok(inner) => if succeeded(inner) {
                    None
                } else {
                    Some(error_in(inner, "Save failed"@))
                },
            },
        },
    }
}

/// Whether a login was saved, by the reply to a request that was sealed with
/// `nonce`.
pub fn save_login(k: &Kpxc, nonce: &[u8; 24], reply: &[u8]) -> (r: Result<(), String>)
    ensures
        match r {
            Ok(()) => k@ is Some && save_error(k@->0, nonce@, reply@) is None,
            Err(e) => if k@ is Some {
                save_error(k@->0, nonce@, reply@) == Some(e@)
            } else {
                e@ == NOT_CONNECTED@
            },
        },
{
    match &k.session {
        None => Err(NOT_CONNECTED.to_owned()),
        Some(session) => {
            if let Some(e) = read_clear_error(reply) {
                return Err(e);
            }
            let message = match json::text_at(reply, "/message") {
                Some(message) => message,
                None => {
                    return Ok(());
                },
            };
            match decrypt_message(
                message.as_str(),
                nonce,
                &session.host_public,
                &session.client_secret,
            ) {
                Err(e) => Err(e),
                Ok(inner) => {
                    if !has_succeeded(inner.as_slice()) {
                        return Err(error_of(inner.as_slice(), "Save failed"));
                    }
                    Ok(())
                },
            }
        },
    }
}

/// A reply is read only if it was sealed between the session's two keys with
/// the nonce that follows the request's: entries come from nowhere else.
pub proof fn law_logins_come_from_the_host(session: Session, nonce: Seq<u8>, reply: Seq<u8>)
    requires
        logins(session, nonce, reply) is Ok,
    ensures
        json::json_text(reply, "/message"@) is Some,
        unarmoured(json::json_text(reply, "/message"@)->0) is Some,
        crypto::box_opened(
            session.host_public,
            session.client_secret,
            following(nonce),
            unarmoured(json::json_text(reply, "/message"@)->0)->0,
        ) matches Some(inner) && logins(session, nonce, reply)->Ok_0 == entries_in(inner),
{
}

// The choice of a password backend.

/// Check if KeePassXC is the active password backend.
pub fn is_active_backend(s: &Settings) -> (r: bool)
    ensures
        r == (settings::value_or(s@, "password_backend"@, "builtin"@) == "keepassxc"@),
{
    let name = backend_name(s);
    text::same(name.as_str(), "keepassxc")
}

/// Get the current password backend name.
pub fn backend_name(s: &Settings) -> (r: String)
    ensures
        r@ == settings::value_or(s@, "password_backend"@, "builtin"@),
{
    settings::setting_or(s, "password_backend", "builtin")
}

/// Set the password backend ("builtin" or "keepassxc").
pub fn set_backend(k: &mut Kpxc, s: &mut Settings, backend: &str)
    ensures
        final(s)@ == old(s)@.insert("password_backend"@, backend@),
        if backend@ == "keepassxc"@ {
            final(k)@ == old(k)@
        } else {
            final(k)@ is None
        },
{
    settings::set_setting(s, "password_backend", backend);
    if !text::same(backend, "keepassxc") {
        disconnect(k);
    }
}

// Filling in an entry.

/// The script that fills in an entry, up to the username.
pub const FILL_HEAD: &'static str = r#"(function() {
    'use strict';
    if (window.__wynnAutofillActive === location.href) return;
    window.__wynnAutofillActive = location.href;

    var USERNAME = '"#;

/// The script between the username and the password.
pub const FILL_MIDDLE: &'static str = r#"';
    var PASSWORD = '"#;

/// The script from the password on.
pub const FILL_TAIL: &'static str = r#"';

    var nativeSetter = Object.getOwnPropertyDescriptor(
        HTMLInputElement.prototype, 'value'
    ).set;

    function fillField(input, value) {
        nativeSetter.call(input, value);
        input.dispatchEvent(new Event('input', { bubbles: true }));
        input.dispatchEvent(new Event('change', { bubbles: true }));
    }

    function tryFill() {
        var pwFields = document.querySelectorAll('input[type="password"]');
        var filled = false;
        for (var i = 0; i < pwFields.length; i++) {
            var pw = pwFields[i];
            if (pw.offsetParent === null) continue;
            fillField(pw, PASSWORD);
            filled = true;
            break;
        }

        var userSelectors = 'input[type="text"], input[type="email"], input[type="tel"], input:not([type])';
        var userFields = document.querySelectorAll(userSelectors);
        for (var j = 0; j < userFields.length; j++) {
            var uf = userFields[j];
            if (uf.offsetParent === null) continue;
            if (uf.type === 'hidden') continue;
            fillField(uf, USERNAME);
            break;
        }

        return filled;
    }

    if (!tryFill()) {
        var schedule = [300, 600, 1000, 1500, 2500, 4000, 6000, 10000];
        var idx = 0;
        var observer = new MutationObserver(function() {
            tryFill();
        });
        observer.observe(document.documentElement, {
            childList: true, subtree: true
        });
        function retry() {
            if (idx >= schedule.length) {
                observer.disconnect();
                return;
            }
            setTimeout(function() {
                tryFill();
                idx++;
                retry();
            }, schedule[idx]);
        }
        retry();
        setTimeout(function() { observer.disconnect(); }, 30000);
    }
})();"#;

/// Generate autofill JavaScript for the given KeePassXC entry.
pub fn autofill_js_for_entry(entry: &KpxcEntry) -> (r: String)
    ensures
        r@ == FILL_HEAD@ + script::quoted_lines(entry.login@) + FILL_MIDDLE@ + script::quoted_lines(
            entry.password@,
        ) + FILL_TAIL@,
{
    let user = script::quote_lines(entry.login.as_str());
    let password = script::quote_lines(entry.password.as_str());
    let mut js = FILL_HEAD.to_owned();
    js.append(user.as_str());
    js.append(FILL_MIDDLE);
    js.append(password.as_str());
    js.append(FILL_TAIL);
    js
}

// Laws.

/// The socket lies in the runtime directory: where the newer one exists it is
/// that, else the older one where that exists.
pub proof fn law_socket(runtime_dir: Option<String>, existing: Seq<Seq<char>>)
    ensures
        runtime_dir is None ==> socket(runtime_dir, existing) is None,
        runtime_dir is Some ==> {
            let newer = runtime_dir->0@ + SOCKET@;
            let older = runtime_dir->0@ + LEGACY_SOCKET@;
            &&& existing.contains(newer) ==> socket(runtime_dir, existing) == Some(newer)
            &&& !existing.contains(newer) && existing.contains(older) ==> socket(
                runtime_dir,
                existing,
            ) == Some(older)
            &&& !existing.contains(newer) && !existing.contains(older) ==> socket(
                runtime_dir,
                existing,
            ) is None
        },
{
}

/// A message of the host is read under the nonce that follows the request's, and
/// only where it is sealed between the two keys and holds JSON.
pub proof fn law_messages_are_opened(
    data: Seq<u8>,
    message: Seq<char>,
    nonce: Seq<u8>,
    host_pk: Seq<u8>,
    client_sk: Seq<u8>,
)
    ensures
        match crypto::box_opened(host_pk, client_sk, following(nonce), data) {
            Some(inner) => match json::json_problem(inner) {
                None => opened(encoding::encoded(data), nonce, host_pk, client_sk) == Ok::<
                    Seq<u8>,
                    Seq<char>,
                >(inner),
                Some(problem) => opened(encoding::encoded(data), nonce, host_pk, client_sk) == Err::<
                    Seq<u8>,
                    Seq<char>,
                >("JSON parse: "@ + problem),
            },
            None => opened(encoding::encoded(data), nonce, host_pk, client_sk) is Err,
        },
        (forall|d: Seq<u8>| #[trigger] encoding::encoded(d) != message) ==> opened(
            message,
            nonce,
            host_pk,
            client_sk,
        ) == Err::<Seq<u8>, Seq<char>>("Base64 decode: "@ + crypto::base64_problem(message)),
{
    law_unarmoured(data);
}

/// The host's key is taken from a reply that tells of success and names a key
/// of 32 bytes, and from no other.
pub proof fn law_host_key(reply: Seq<u8>, key: Seq<u8>)
    ensures
        host_key(reply) == Ok::<Seq<u8>, Seq<char>>(key) <==> json::json_text(reply, "/success"@)
            == Some("true"@) && key.len() == 32 && json::json_text(reply, "/publicKey"@) == Some(
            encoding::encoded(key),
        ),
        json::json_text(reply, "/success"@) != Some("true"@) ==> host_key(reply) is Err,
{
    law_unarmoured(key);
    if host_key(reply) == Ok::<Seq<u8>, Seq<char>>(key) {
        let armoured = json::json_text(reply, "/publicKey"@)->0;
        let data = choose|data: Seq<u8>| encoding::encoded(data) == armoured;
        assert(encoding::encoded(data) == armoured);
        law_unarmoured(data);
    }
}

/// What follows the reply to the key exchange: an error where there is no key
/// in it; else a test of the stored association where there is one, and a
/// request for a new one where there is none. No setting changes.
pub proof fn law_after_the_key_exchange(
    client_secret: Seq<u8>,
    client_id: Seq<char>,
    s: Map<Seq<char>, Seq<char>>,
    reply: Seq<u8>,
    nonce: Seq<u8>,
    secret: Seq<u8>,
)
    ensures
        ({
            let r = next_step(Stage::Keys { client_secret, client_id }, s, reply, nonce, secret);
            &&& r.1 == s
            &&& host_key(reply) is Err ==> r.0 is Failed
            &&& host_key(reply) is Ok ==> r.0 is Send
            &&& host_key(reply) is Ok && stored_association(s) is Some ==> r.0->next == (Stage::Test {
                client_secret,
                host_public: host_key(reply)->Ok_0,
                client_id,
                nonce,
                saved: stored_association(s)->0,
            }) && r.0->bytes == request(
                "test-associate"@,
                test_message(stored_association(s)->0),
                client_id,
                host_key(reply)->Ok_0,
                client_secret,
                nonce,
            )
            &&& host_key(reply) is Ok && stored_association(s) is None ==> r.0->next
                == (Stage::Associate {
                client_secret,
                host_public: host_key(reply)->Ok_0,
                client_id,
                nonce,
                id_secret: secret,
            }) && r.0->bytes == request(
                "associate"@,
                associate_message(client_secret, secret),
                client_id,
                host_key(reply)->Ok_0,
                client_secret,
                nonce,
            )
        }),
{
}

/// What follows the test of an association: the session where the host tells of
/// success, else a request for a new association. No setting changes.
pub proof fn law_after_the_test(
    stage: Stage,
    s: Map<Seq<char>, Seq<char>>,
    reply: Seq<u8>,
    nonce: Seq<u8>,
    secret: Seq<u8>,
)
    requires
        stage is Test,
    ensures
        ({
            let r = next_step(stage, s, reply, nonce, secret);
            let sealed = json::json_text(reply, "/message"@);
            let inner = opened(
                sealed->0,
                stage->Test_nonce,
                stage->Test_host_public,
                stage->Test_client_secret,
            );
            let success = if sealed is Some {
                inner is Ok && json::json_text(inner->Ok_0, "/success"@) == Some("true"@)
            } else {
                json::json_text(reply, "/success"@) == Some("true"@)
            };
            &&& r.1 == s
            &&& success ==> r.0 is Done && r.0->Done_0.association == stage->Test_saved
            &&& !success ==> r.0 is Send && r.0->next is Associate && r.0->next->Associate_id_secret
                == secret
        }),
{
}

/// What follows a request for an association: where the host tells of success
/// in a sealed message, the session, with the name that it gives and the key
/// that was asked for, and just that is stored; else an error, and nothing is.
pub proof fn law_after_the_association(
    stage: Stage,
    s: Map<Seq<char>, Seq<char>>,
    reply: Seq<u8>,
    nonce: Seq<u8>,
    secret: Seq<u8>,
)
    requires
        stage is Associate,
    ensures
        ({
            let r = next_step(stage, s, reply, nonce, secret);
            let sealed = json::json_text(reply, "/message"@);
            let inner = opened(
                sealed->0,
                stage->Associate_nonce,
                stage->Associate_host_public,
                stage->Associate_client_secret,
            );
            let success = sealed is Some && inner is Ok && json::json_text(
                inner->Ok_0,
                "/success"@,
            ) == Some("true"@);
            &&& !success ==> r.0 is Failed && r.1 == s
            &&& success ==> r.0 is Done && ({
                let a = r.0->Done_0.association;
                &&& json::json_text(inner->Ok_0, "/id"@) is Some ==> a.id == json::json_text(
                    inner->Ok_0,
                    "/id"@,
                )->0
                &&& json::json_text(inner->Ok_0, "/id"@) is None ==> a.id == "wynn-browser"@
                &&& a.secret == stage->Associate_id_secret
                &&& a.public == encoding::encoded(
                    crypto::x25519_public(stage->Associate_id_secret),
                )
                &&& r.1 == with_association(s, a)
            })
        }),
{
}

/// The logins of a reply: every entry of the sealed message, in order, each with
/// what stands under its keys and nothing where a key is missing.
pub proof fn law_every_entry_is_read(message: Seq<u8>, i: int)
    ensures
        match json::json_count(message, "/entries"@) {
            Some(n) => {
                &&& entries_in(message).len() == n
                &&& 0 <= i < n ==> {
                    let at = "/entries/"@ + text::decimal(i as nat) + "/"@;
                    let e = entries_in(message)[i];
                    &&& json::json_text(message, at + "name"@) is Some ==> e.name
                        == json::json_text(message, at + "name"@)->0
                    &&& json::json_text(message, at + "login"@) is Some ==> e.login
                        == json::json_text(message, at + "login"@)->0
                    &&& json::json_text(message, at + "password"@) is Some ==> e.password
                        == json::json_text(message, at + "password"@)->0
                    &&& json::json_text(message, at + "uuid"@) is Some ==> e.uuid
                        == json::json_text(message, at + "uuid"@)->0
                    &&& json::json_text(message, at + "login"@) is None ==> e.login.len() == 0
                    &&& json::json_text(message, at + "password"@) is None ==> e.password.len() == 0
                }
            },
            None => entries_in(message).len() == 0,
        },
{
}

/// When a reply gives logins, and when an error: an error in the clear comes
/// first; then the sealed message decides by whether it tells of success.
pub proof fn law_replies_to_requests(session: Session, nonce: Seq<u8>, reply: Seq<u8>)
    ensures
        ({
            let clear = json::json_text(reply, "/error"@);
            let sealed = json::json_text(reply, "/message"@);
            let inner = opened(sealed->0, nonce, session.host_public, session.client_secret);
            let told = clear is Some && clear->0.len() > 0;
            let success = sealed is Some && inner is Ok && json::json_text(
                inner->Ok_0,
                "/success"@,
            ) == Some("true"@);
            &&& told ==> logins(session, nonce, reply) == Err::<Seq<Entry>, Seq<char>>(
                "KeePassXC: "@ + clear->0,
            ) && save_error(session, nonce, reply) == Some("KeePassXC: "@ + clear->0)
            &&& !told && success ==> logins(session, nonce, reply) == Ok::<Seq<Entry>, Seq<char>>(
                entries_in(inner->Ok_0),
            ) && save_error(session, nonce, reply) is None
            &&& !told && !success ==> logins(session, nonce, reply) is Err
            &&& !told && sealed is Some && !success ==> save_error(session, nonce, reply) is Some
            &&& !told && sealed is None ==> save_error(session, nonce, reply) is None
        }),
{
}

/// What the messages to the host say: the action, and what it needs.
pub proof fn law_messages_say(
    a: Association,
    client_secret: Seq<u8>,
    id_secret: Seq<u8>,
    url: Seq<char>,
    username: Seq<char>,
    password: Seq<char>,
)
    ensures
        test_message(a) == json::json_object(
            seq![("action"@, "test-associate"@), ("id"@, a.id), ("key"@, a.public)],
            Seq::empty(),
        ),
        associate_message(client_secret, id_secret) == json::json_object(
            seq![
                ("action"@, "associate"@),
                ("key"@, encoding::encoded(crypto::x25519_public(client_secret))),
                ("idKey"@, encoding::encoded(crypto::x25519_public(id_secret))),
            ],
            Seq::empty(),
        ),
        logins_message(a, url) == json::json_object(
            seq![("action"@, "get-logins"@), ("url"@, url)],
            seq![("keys"@, seq![seq![("id"@, a.id), ("key"@, a.public)]])],
        ),
        save_message(a, url, username, password) == json::json_object(
            seq![
                ("action"@, "set-login"@),
                ("url"@, url),
                ("submitUrl"@, url),
                ("id"@, a.id),
                ("login"@, username),
                ("password"@, password),
                ("downloadFavicon"@, "true"@),
            ],
            Seq::empty(),
        ),
{
}

/// A request names its action and the client in the clear, and carries its
/// message sealed for the host, with the nonce.
pub proof fn law_requests_carry(
    action: Seq<char>,
    inner: Seq<u8>,
    client_id: Seq<char>,
    host_pk: Seq<u8>,
    client_sk: Seq<u8>,
    nonce: Seq<u8>,
)
    ensures
        request(action, inner, client_id, host_pk, client_sk, nonce) == json::json_object(
            seq![
                ("action"@, action),
                (
                    "message"@,
                    encoding::encoded(crypto::box_sealed(host_pk, client_sk, nonce, inner)),
                ),
                ("nonce"@, encoding::encoded(nonce)),
                ("clientID"@, client_id),
            ],
            Seq::empty(),
        ),
        key_message(client_sk, client_id, nonce) == json::json_object(
            seq![
                ("action"@, "change-public-keys"@),
                ("publicKey"@, encoding::encoded(crypto::x25519_public(client_sk))),
                ("nonce"@, encoding::encoded(nonce)),
                ("clientID"@, client_id),
            ],
            Seq::empty(),
        ),
{
}

/// A request to save a login gives the host the address, the username and the
/// password, and one for logins the address.
pub proof fn law_requests_reach_the_host(
    session: Session,
    request: Seq<u8>,
    url: Seq<char>,
    username: Seq<char>,
    password: Seq<char>,
    host_sk: Seq<u8>,
)
    requires
        host_sk.len() == 32,
        crypto::x25519_public(host_sk) == session.host_public,
    ensures
        ({
            let read = read_by_host(request, crypto::x25519_public(session.client_secret), host_sk);
            &&& asks_to_save(session, request, url, username, password) ==> read is Some
                && json::json_text(read->0, "/url"@) == Some(url) && json::json_text(
                read->0,
                "/login"@,
            ) == Some(username) && json::json_text(read->0, "/password"@) == Some(password)
            &&& asks_logins(session, request, url) ==> read is Some && json::json_text(
                read->0,
                "/url"@,
            ) == Some(url)
        }),
{
}

/// Every entry of a list is there, in the order of the list.
pub proof fn law_entries(v: Seq<KpxcEntry>, i: int)
    requires
        0 <= i < v.len(),
    ensures
        entries_of(v).len() == v.len(),
        entries_of(v)[i].login == v[i].login@,
        entries_of(v)[i].password == v[i].password@,
        entries_of(v)[i].name == v[i].name@,
        entries_of(v)[i].uuid == v[i].uuid@,
{
}

/// An association is read from the settings where all three of its parts are
/// set, none is empty, and the secret key is armoured; and from no others.
pub proof fn law_association_is_whole(s: Map<Seq<char>, Seq<char>>, secret: Seq<u8>)
    ensures
        ({
            let keys = seq!["kpxc_association_id"@, "kpxc_id_public_key"@, "kpxc_id_secret_key"@];
            &&& stored_association(s) is Some ==> forall|k: int|
                0 <= k < 3 ==> s.dom().contains(#[trigger] keys[k]) && s[keys[k]].len() > 0
            &&& (forall|k: int|
                0 <= k < 3 ==> s.dom().contains(#[trigger] keys[k]) && s[keys[k]].len() > 0)
                && s[keys[2]] == encoding::encoded(secret) ==> stored_association(s) == Some(
                Association { id: s[keys[0]], public: s[keys[1]], secret },
            )
        }),
{
    law_unarmoured(secret);
    let keys = seq!["kpxc_association_id"@, "kpxc_id_public_key"@, "kpxc_id_secret_key"@];
    assert(keys[0] == "kpxc_association_id"@);
    assert(keys[1] == "kpxc_id_public_key"@);
    assert(keys[2] == "kpxc_id_secret_key"@);
}

/// What the host reads in a request: what opens with its key from the message
/// and the nonce that stand in it.
pub proof fn law_read_by_host(
    request: Seq<u8>,
    client_pk: Seq<u8>,
    host_sk: Seq<u8>,
    data: Seq<u8>,
    nonce: Seq<u8>,
)
    ensures
        json::json_text(request, "/message"@) == Some(encoding::encoded(data)) && json::json_text(
            request,
            "/nonce"@,
        ) == Some(encoding::encoded(nonce)) ==> read_by_host(request, client_pk, host_sk)
            == crypto::box_opened(client_pk, host_sk, nonce, data),
        json::json_text(request, "/message"@) is None || json::json_text(request, "/nonce"@) is None
            ==> read_by_host(request, client_pk, host_sk) is None,
{
    law_unarmoured(data);
    law_unarmoured(nonce);
}

/// An error says that it is KeePassXC's, and then what the message names, or
/// the default where it names nothing.
pub proof fn law_errors_say(message: Seq<u8>, default: Seq<char>)
    ensures
        ({
            let said = json::json_text(message, "/error"@);
            let reason = if said is Some {
                said->0
            } else {
                default
            };
            let e = error_in(message, default);
            &&& text::begins(e, "KeePassXC: "@)
            &&& text::ends(e, reason)
            &&& e.len() == 11 + reason.len()
        }),
{
    reveal_strlit("KeePassXC: ");
    let said = json::json_text(message, "/error"@);
    let reason = if said is Some {
        said->0
    } else {
        default
    };
    let e = error_in(message, default);
    assert(e.subrange(0, 11) =~= "KeePassXC: "@);
    assert(e.subrange(e.len() - reason.len(), e.len() as int) =~= reason);
}

/// Why there is no key of the host: the exchange failed, no key is named, the
/// key is not armoured, or it has the wrong length.
pub proof fn law_host_key_errors(reply: Seq<u8>, key: Seq<u8>)
    ensures
        ({
            let told = json::json_text(reply, "/success"@) == Some("true"@);
            let named = json::json_text(reply, "/publicKey"@);
            &&& !told ==> host_key(reply) == Err::<Seq<u8>, Seq<char>>(
                "Key exchange rejected by KeePassXC"@,
            )
            &&& told && named is None ==> host_key(reply) == Err::<Seq<u8>, Seq<char>>(
                "No publicKey in response"@,
            )
            &&& told && named is Some && !(exists|data: Seq<u8>|
                #[trigger] encoding::encoded(data) == named->0) ==> host_key(reply) is Err
            &&& told && named is Some && unarmoured(named->0) is None ==> host_key(reply) == Err::<
                Seq<u8>,
                Seq<char>,
            >("Invalid host public key"@)
            &&& told && named == Some(encoding::encoded(key)) && key.len() != 32 ==> host_key(reply)
                == Err::<Seq<u8>, Seq<char>>("Invalid host public key length"@)
        }),
{
    law_unarmoured(key);
}

/// Why a request comes to nothing: no message may be a refusal by the user,
/// and a message that tells of no success gives its own reason or a default.
pub proof fn law_refusals(session: Session, nonce: Seq<u8>, reply: Seq<u8>)
    ensures
        ({
            let sealed = json::json_text(reply, "/message"@);
            let inner = opened(sealed->0, nonce, session.host_public, session.client_secret);
            let refused = sealed is Some && inner is Ok && json::json_text(
                inner->Ok_0,
                "/success"@,
            ) != Some("true"@) && json::json_text(inner->Ok_0, "/error"@) is None;
            let agreement = agreed(reply, nonce, session.host_public, session.client_secret);
            &&& sealed is None ==> agreement == Err::<Seq<char>, Seq<char>>(
                "No message in associate response. User may have denied the request."@,
            )
            &&& refused ==> agreement == Err::<Seq<char>, Seq<char>>(
                "KeePassXC: "@ + "Association denied"@,
            )
            &&& refused && json::json_text(reply, "/error"@) is None ==> save_error(
                session,
                nonce,
                reply,
            ) == Some("KeePassXC: "@ + "Save failed"@)
        }),
{
}

} // verus!
