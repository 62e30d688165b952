//! The certificate authority: its key and its certificate, and where they are kept.
use vstd::prelude::*;
use vstd::string::StringExecFns;
use crate::config::FileWrite;
use crate::paths::{
    file_name, file_name_of, file_stem, file_stem_of, join_path, joined_path, kept_len,
    law_stem_ends_at_last_dot, lemma_kept_len, lemma_name_start, name_start, parent, parent_of,
};
use crate::text::{chars_of, ends_with, finishes_with, last_of, opt_text, text_of};

verus! {

pub const CA_KEY_FILE: &'static str = "ca-key.pem";

pub const CA_CERT_FILE: &'static str = "ca.pem";

pub const CA_COMMON_NAME: &'static str = "httplogger CA";

/// The key file and the certificate file of a workspace.
pub fn default_ca_paths(workspace_root: &str) -> (r: (String, String))
    ensures
        r.0@ == joined_path(workspace_root@, CA_KEY_FILE@),
        r.1@ == joined_path(workspace_root@, CA_CERT_FILE@),
{
    (join_path(workspace_root, CA_KEY_FILE), join_path(workspace_root, CA_CERT_FILE))
}

/// The name of the certificate file beside a key file: `name-key.pem` has `name.pem`, and any
/// other key the stem of its name with `.pem` behind it. The stem of another `name.pem` would name
/// the key file itself, and the certificate would overwrite the key, so it has `name-cert.pem`.
pub open spec fn cert_name(key_name: Seq<char>) -> Seq<char> {
    if finishes_with(key_name, "-key.pem"@) {
        key_name.take(key_name.len() - 8) + ".pem"@
    } else if finishes_with(key_name, ".pem"@) {
        key_name.take(key_name.len() - 4) + "-cert.pem"@
    } else {
        file_stem(key_name) + ".pem"@
    }
}

/// The certificate file beside a key file. A path without a file name counts as the default key
/// file.
pub open spec fn cert_path(key_path: Seq<char>) -> Seq<char> {
    let name = cert_name(match file_name(key_path) {
        Some(name) => name,
        None => CA_KEY_FILE@,
    });
    match parent(key_path) {
        Some(dir) => joined_path(dir, name),
        None => name,
    }
}

/// The name of the certificate file beside a key file.
pub fn cert_name_for_key(key_name: &str) -> (r: String)
    ensures
        r@ == cert_name(key_name@),
{
    let c = chars_of(key_name);
    proof {
        reveal_strlit("-key.pem");
        reveal_strlit(".pem");
    }
    if ends_with(key_name, "-key.pem") {
        let mut s = text_of(c.as_slice(), 0, c.len() - 8);
        assert(s@ =~= key_name@.take(key_name@.len() - 8));
        s.append(".pem");
        s
    } else if ends_with(key_name, ".pem") {
        let mut s = text_of(c.as_slice(), 0, c.len() - 4);
        assert(s@ =~= key_name@.take(key_name@.len() - 4));
        s.append("-cert.pem");
        s
    } else {
        let mut s = file_stem_of(key_name);
        s.append(".pem");
        s
    }
}

/// The certificate file beside a key file.
pub fn cert_path_for_key(key_path: &str) -> (r: String)
    ensures
        r@ == cert_path(key_path@),
{
    let name = match file_name_of(key_path) {
        Some(name) => cert_name_for_key(name.as_str()),
        None => cert_name_for_key(CA_KEY_FILE),
    };
    match parent_of(key_path) {
        Some(dir) => join_path(dir.as_str(), name.as_str()),
        None => name,
    }
}

// ---------------------------------------------------------------------------
// Making and loading an authority.
// ---------------------------------------------------------------------------

/// A key pair of `rcgen`, which is carried through and not looked into.
#[verifier::external_type_specification]
#[verifier::external_body]
pub struct ExKeyPair(hudsucker::rcgen::KeyPair);

/// An issuer of `rcgen`, which is carried through and not looked into.
#[verifier::external_type_specification]
#[verifier::external_body]
#[verifier::reject_recursive_types(S)]
pub struct ExIssuer<'a, S>(hudsucker::rcgen::Issuer<'a, S>);

/// The error type of `rcgen`, which is carried through and not looked into.
#[verifier::external_type_specification]
#[verifier::external_body]
pub struct ExRcgenError(hudsucker::rcgen::Error);

/// Whether a text holds a key that `rcgen::KeyPair::from_pem` can read.
pub uninterp spec fn key_pem_taken(pem: Seq<char>) -> bool;

/// Whether a key pair of `rcgen` holds the key that a text holds. A key pair may hold random bytes
/// besides, so that a text has more than one.
pub uninterp spec fn key_of_pem(pem: Seq<char>, key_pair: hudsucker::rcgen::KeyPair) -> bool;

/// The issuer that `rcgen::Issuer::from_ca_cert_pem` makes of the certificate that a text holds and
/// of a key pair.
pub uninterp spec fn issuer_of(
    pem: Seq<char>,
    key_pair: hudsucker::rcgen::KeyPair,
) -> hudsucker::rcgen::Issuer<'static, hudsucker::rcgen::KeyPair>;

/// Whether a text holds a certificate that `rcgen::Issuer::from_ca_cert_pem` can read.
pub uninterp spec fn cert_pem_taken(pem: Seq<char>) -> bool;

/// Whether a text holds a certificate of an authority with this common name that
/// `rcgen::CertificateParams::self_signed` made with the key that the last text holds.
pub uninterp spec fn certifies(
    cert_pem: Seq<char>,
    common_name: Seq<char>,
    key_pem: Seq<char>,
) -> bool;

/// `rcgen::KeyPair::generate`: a new key pair, which is random, so that nothing is stated of it.
/// It takes random bytes from the system twice, and panics where only the second time fails.
#[verifier::external_body]
fn generate_key() -> (r: Result<hudsucker::rcgen::KeyPair, hudsucker::rcgen::Error>) {
    hudsucker::rcgen::KeyPair::generate()
}

/// `rcgen::CertificateParams::self_signed`: a certificate of an authority with this common name,
/// signed by the key pair. `rcgen::KeyPair::serialize_pem` and `rcgen::Certificate::pem` turn the
/// two into PEM texts, the key first, which `rcgen::KeyPair::from_pem` and
/// `rcgen::Issuer::from_ca_cert_pem` can read. The first text holds the key of the key pair. The
/// signature is not stated: it is random. A common name is as long as X.520 allows it to be.
#[verifier::external_body]
fn self_signed_pem(common_name: &str, key_pair: &hudsucker::rcgen::KeyPair) -> (r: Result<
    (String, String),
    hudsucker::rcgen::Error,
>)
    requires
        0 < common_name@.len() <= 64,
    ensures
        r is Ok ==> key_pem_taken((r->Ok_0).0@),
        r is Ok ==> key_of_pem((r->Ok_0).0@, *key_pair),
        r is Ok ==> cert_pem_taken((r->Ok_0).1@),
        r is Ok ==> certifies((r->Ok_0).1@, common_name@, (r->Ok_0).0@),
{
    let mut params = hudsucker::rcgen::CertificateParams::default();
    params.is_ca = hudsucker::rcgen::IsCa::Ca(hudsucker::rcgen::BasicConstraints::Unconstrained);
    params.distinguished_name.push(hudsucker::rcgen::DnType::CommonName, common_name);
    let cert = params.self_signed(key_pair)?;
    Ok((key_pair.serialize_pem(), cert.pem()))
}

/// `rcgen::KeyPair::from_pem`: a key pair comes only out of a text that holds a key it can read, and
/// it holds that key. That it does come is not stated: random bytes are taken from the system for some kinds of keys,
/// and the key is refused where there are none.
#[verifier::external_body]
fn read_key_pair(pem: &str) -> (r: Result<hudsucker::rcgen::KeyPair, hudsucker::rcgen::Error>)
    ensures
        r is Ok ==> key_pem_taken(pem@),
        r is Ok ==> key_of_pem(pem@, r->Ok_0),
{
    hudsucker::rcgen::KeyPair::from_pem(pem)
}

/// `rcgen::Issuer::from_ca_cert_pem`: it reads the certificate wherever the text holds one that it
/// can read. The key pair is kept, and not held against the certificate; the issuer depends on the
/// text and the key pair alone.
#[verifier::external_body]
fn read_issuer(pem: &str, key_pair: hudsucker::rcgen::KeyPair) -> (r: Result<
    hudsucker::rcgen::Issuer<'static, hudsucker::rcgen::KeyPair>,
    hudsucker::rcgen::Error,
>)
    ensures
        r is Ok == cert_pem_taken(pem@),
        r is Ok ==> r->Ok_0 == issuer_of(pem@, key_pair),
{
    hudsucker::rcgen::Issuer::from_ca_cert_pem(pem, key_pair)
}

/// The files of a new authority.
#[derive(Debug)]
pub struct CaFiles {
    /// The directory that must be there.
    pub directory: Option<String>,
    pub key: FileWrite,
    pub cert: FileWrite,
}

/// The files of a new authority with these PEM texts.
pub fn ca_files(key_path: &str, cert_path: &str, key_pem: String, cert_pem: String) -> (r: CaFiles)
    ensures
        opt_text(r.directory) == parent(key_path@),
        r.key.path@ == key_path@,
        r.key.content@ == key_pem@,
        r.cert.path@ == cert_path@,
        r.cert.content@ == cert_pem@,
{
    CaFiles {
        directory: parent_of(key_path),
        key: FileWrite { path: key_path.to_owned(), content: key_pem },
        cert: FileWrite { path: cert_path.to_owned(), content: cert_pem },
    }
}

/// What is said where files are there that are not to be overwritten.
pub open spec fn files_exist_text(key_path: Seq<char>, cert_path: Seq<char>) -> Seq<char> {
    "CA files already exist ("@ + key_path + " and/or "@ + cert_path
        + "); delete them to regenerate"@
}

/// Makes a new authority. It is refused where one of its files is there already, unless `force`
/// says to overwrite them. Its certificate is made for its key, and `load_ca` can read both files
/// back. Which key it is, is not stated: the key and the signature are random.
pub fn generate_key_pair(
    key_path: &str,
    cert_path: &str,
    key_present: bool,
    cert_present: bool,
    force: bool,
) -> (r: Result<CaFiles, String>)
    ensures
        !force && (key_present || cert_present) ==> r is Err && (r->Err_0)@ == files_exist_text(
            key_path@,
            cert_path@,
        ),
        force || !(key_present || cert_present) ==> match r {
            Ok(files) => {
                &&& opt_text(files.directory) == parent(key_path@)
                &&& files.key.path@ == key_path@
                &&& key_pem_taken(files.key.content@)
                &&& files.cert.path@ == cert_path@
                &&& cert_pem_taken(files.cert.content@)
                &&& certifies(files.cert.content@, CA_COMMON_NAME@, files.key.content@)
            },
            Err(message) => message@ == "failed to generate CA key pair"@ || message@
                == "failed to sign CA certificate"@,
        },
{
    if !force && (key_present || cert_present) {
        let mut s = "CA files already exist (".to_owned();
        s.append(key_path);
        s.append(" and/or ");
        s.append(cert_path);
        s.append("); delete them to regenerate");
        return Err(s);
    }
    let key_pair = match generate_key() {
        Ok(key_pair) => key_pair,
        Err(_) => return Err("failed to generate CA key pair".to_owned()),
    };
    proof {
        reveal_strlit("httplogger CA");
    }
    match self_signed_pem(CA_COMMON_NAME, &key_pair) {
        Ok((key_pem, cert_pem)) => Ok(ca_files(key_path, cert_path, key_pem, cert_pem)),
        Err(_) => Err("failed to sign CA certificate".to_owned()),
    }
}

/// An authority that is ready to sign.
pub struct CaMaterial {
    pub issuer: hudsucker::rcgen::Issuer<'static, hudsucker::rcgen::KeyPair>,
    pub cert_pem: String,
    pub cert_path: String,
}

/// The authority of a key that was read or refused, and of a certificate. It signs with that key.
pub fn ca_material(
    key_path: &str,
    key_pair: Result<hudsucker::rcgen::KeyPair, hudsucker::rcgen::Error>,
    cert_pem: String,
) -> (r: Result<CaMaterial, String>)
    ensures
        r is Ok == (key_pair is Ok && cert_pem_taken(cert_pem@)),
        match r {
            Ok(ca) => {
                &&& ca.issuer == issuer_of(cert_pem@, key_pair->Ok_0)
                &&& ca.cert_pem@ == cert_pem@
                &&& ca.cert_path@ == cert_path(key_path@)
            },
            Err(message) => message@ == if key_pair is Err {
                "invalid "@ + key_path@
            } else {
                "failed to build CA issuer from PEM files"@
            },
        },
{
    let key_pair = match key_pair {
        Ok(key_pair) => key_pair,
        Err(_) => {
            let mut message = "invalid ".to_owned();
            message.append(key_path);
            return Err(message);
        },
    };
    match read_issuer(cert_pem.as_str(), key_pair) {
        Ok(issuer) => Ok(CaMaterial { issuer, cert_pem, cert_path: cert_path_for_key(key_path) }),
        Err(_) => Err("failed to build CA issuer from PEM files".to_owned()),
    }
}

/// The authority whose key and certificate were read, which signs with that key. A text that holds
/// no key is refused, and then one that holds no certificate. A key may also be refused because the
/// system has no random bytes.
pub fn load_ca(key_path: &str, key_pem: &str, cert_pem: String) -> (r: Result<CaMaterial, String>)
    ensures
        match r {
            Ok(ca) => {
                &&& key_pem_taken(key_pem@)
                &&& cert_pem_taken(cert_pem@)
                &&& exists|key_pair: hudsucker::rcgen::KeyPair| #[trigger]
                    key_of_pem(key_pem@, key_pair) && ca.issuer == issuer_of(cert_pem@, key_pair)
                &&& ca.cert_pem@ == cert_pem@
                &&& ca.cert_path@ == cert_path(key_path@)
            },
            Err(message) => {
                ||| message@ == "invalid "@ + key_path@
                ||| {
                    &&& key_pem_taken(key_pem@)
                    &&& !cert_pem_taken(cert_pem@)
                    &&& message@ == "failed to build CA issuer from PEM files"@
                }
            },
        },
{
    ca_material(key_path, read_key_pair(key_pem), cert_pem)
}

/// The key file of the authority to use, the default one unless another is named, and the
/// certificate file beside it.
pub fn ensure_ca(workspace_root: &str, key_path: Option<&str>) -> (r: (String, String))
    ensures
        r.0@ == match key_path {
            Some(path) => path@,
            None => joined_path(workspace_root@, CA_KEY_FILE@),
        },
        r.1@ == cert_path(r.0@),
{
    let key = match key_path {
        Some(path) => path.to_owned(),
        None => default_ca_paths(workspace_root).0,
    };
    let cert = cert_path_for_key(key.as_str());
    (key, cert)
}

/// The path of a workspace that does not end with a component `.`, and with one slash at most.
pub open spec fn plain_root(root: Seq<char>) -> bool {
    let kept = kept_len(root, root.len() as int);
    kept == root.len() || (root.last() == '/' && kept == root.len() - 1 && root != "//"@)
}

/// The certificate that belongs to the default key of a workspace is its default certificate, as
/// text, exactly where the path of the workspace does not end with a component `.` nor with more
/// than one slash.
pub proof fn law_default_certificate_belongs_to_default_key(workspace_root: Seq<char>)
    ensures
        cert_path(joined_path(workspace_root, CA_KEY_FILE@)) == joined_path(
            workspace_root,
            CA_CERT_FILE@,
        ) <==> plain_root(workspace_root),
{
    let root = workspace_root;
    let n = kept_len(root, root.len() as int);
    lemma_default_key_name();
    lemma_kept_len(root, root.len() as int);
    lemma_kept_len_twice(root, root.len() as int);
    lemma_name_behind(root, CA_KEY_FILE@);
    reveal_strlit("/");
    reveal_strlit("//");
    reveal_strlit("ca.pem");
    let dir = root.take(n);
    let owed = joined_path(root, CA_CERT_FILE@);
    let given = joined_path(dir, CA_CERT_FILE@);
    assert(cert_path(joined_path(root, CA_KEY_FILE@)) == given);
    if n == root.len() {
        assert(dir =~= root);
    } else if root.last() == '/' && n == root.len() - 1 {
        if dir.last() == '/' {
            assert(n == 1);
            assert(root =~= "//"@);
        } else {
            assert(root != "//"@) by {
                if root == "//"@ {
                    assert(dir.last() == root[0]);
                }
            }
            assert(dir + "/"@ =~= root);
            assert(given =~= owed);
        }
    } else {
        assert(given.len() < owed.len());
    }
}

/// The certificate beside a key is another file than the key.
pub proof fn law_certificate_is_not_the_key(key_path: Seq<char>)
    requires
        file_name(key_path) is Some,
    ensures
        cert_path(key_path) != key_path,
        file_name(cert_path(key_path)) == Some(cert_name(file_name(key_path)->0)),
        parent(cert_path(key_path)) == parent(key_path),
{
    let n = kept_len(key_path, key_path.len() as int);
    let start = name_start(key_path, n);
    let name = file_name(key_path)->0;
    lemma_kept_len(key_path, key_path.len() as int);
    lemma_name_start(key_path, n);
    let end = kept_len(key_path, start);
    lemma_kept_len(key_path, start);
    lemma_kept_len_twice(key_path, start);
    let dir = key_path.take(end);
    lemma_kept_len_of_prefix(key_path, dir, end);
    lemma_no_slash_in_name(key_path, n);
    lemma_cert_name(name);
    lemma_name_behind(dir, cert_name(name));
    assert(dir.take(end) =~= dir);
}

proof fn lemma_default_key_name()
    ensures
        cert_name(CA_KEY_FILE@) == CA_CERT_FILE@,
        CA_KEY_FILE@.len() == 10,
        forall|i: int| 0 <= i < 10 ==> CA_KEY_FILE@[i] != '/',
        CA_KEY_FILE@.last() != '.',
{
    reveal_strlit("ca-key.pem");
    reveal_strlit("-key.pem");
    reveal_strlit("ca.pem");
    reveal_strlit(".pem");
    let name = CA_KEY_FILE@;
    assert(name.skip(2) =~= "-key.pem"@);
    assert(name.take(2) + ".pem"@ =~= CA_CERT_FILE@);
}

/// A name put behind a directory is its last component, and what is before it is the directory
/// without slashes and components `.` at its end.
proof fn lemma_name_behind(dir: Seq<char>, name: Seq<char>)
    requires
        name.len() > 0,
        forall|i: int| 0 <= i < name.len() ==> name[i] != '/',
        name.last() != '.',
    ensures
        file_name(joined_path(dir, name)) == Some(name),
        parent(joined_path(dir, name)) == Some(dir.take(kept_len(dir, dir.len() as int))),
{
    reveal_strlit("/");
    reveal_strlit(".");
    reveal_strlit("..");
    let path = joined_path(dir, name);
    let n = path.len() as int;
    let at = n - name.len();
    assert(name[0] != '/');
    assert(at == dir.len() || (at == dir.len() + 1 && path[at - 1] == '/'));
    assert(at == dir.len() ==> at == 0 || path[at - 1] == '/');
    assert forall|i: int| at <= i < n implies path[i] == name[i - at] by {}
    lemma_name_start_is(path, at, n);
    assert(path[n - 1] == name.last());
    assert(path[n - 1] != '/') by {
        assert(name[name.len() - 1] != '/');
    }
    assert(kept_len(path, n) == n);
    assert(path.subrange(at, n) =~= name);
    lemma_kept_len(dir, dir.len() as int);
    lemma_kept_len_of_prefix(path, dir, dir.len() as int);
    assert(kept_len(path, at) == kept_len(dir, dir.len() as int));
    assert(path.take(kept_len(path, at)) =~= dir.take(kept_len(path, at)));
}

/// Nothing more is taken off what is kept, and it has no slash at its end but for the root.
proof fn lemma_kept_len_twice(path: Seq<char>, n: int)
    requires
        0 <= n <= path.len(),
    ensures
        kept_len(path, kept_len(path, n)) == kept_len(path, n),
        kept_len(path, n) >= 2 ==> path[kept_len(path, n) - 1] != '/',
    decreases n,
{
    if n >= 2 && (path[n - 1] == '/' || (path[n - 1] == '.' && path[n - 2] == '/')) {
        lemma_kept_len_twice(path, n - 1);
    }
}

proof fn lemma_no_slash_in_name(path: Seq<char>, n: int)
    requires
        0 <= n <= path.len(),
    ensures
        forall|i: int| name_start(path, n) <= i < n ==> path[i] != '/',
    decreases n,
{
    if n > 0 && path[n - 1] != '/' {
        lemma_no_slash_in_name(path, n - 1);
    }
}

/// The name of a certificate is a file name, and not the one of its key.
proof fn lemma_cert_name(name: Seq<char>)
    requires
        forall|i: int| 0 <= i < name.len() ==> name[i] != '/',
    ensures
        cert_name(name) != name,
        cert_name(name).len() > 0,
        forall|i: int| 0 <= i < cert_name(name).len() ==> cert_name(name)[i] != '/',
        cert_name(name).last() != '.',
{
    reveal_strlit("-key.pem");
    reveal_strlit(".pem");
    reveal_strlit("-cert.pem");
    lemma_last_of(name, '.');
    let cert = cert_name(name);
    if !finishes_with(name, "-key.pem"@) && !finishes_with(name, ".pem"@) {
        assert(cert.skip(cert.len() - 4) =~= ".pem"@);
    }
}

proof fn lemma_last_of(s: Seq<char>, c: char)
    ensures
        -1 <= last_of(s, c) < s.len(),
    decreases s.len(),
{
    if s.len() > 0 && s.last() != c {
        lemma_last_of(s.drop_last(), c);
    }
}

proof fn lemma_kept_len_of_prefix(path: Seq<char>, prefix: Seq<char>, n: int)
    requires
        0 <= n <= prefix.len() <= path.len(),
        forall|i: int| 0 <= i < prefix.len() ==> path[i] == prefix[i],
    ensures
        kept_len(path, n) == kept_len(prefix, n),
    decreases n,
{
    if n >= 2 {
        lemma_kept_len_of_prefix(path, prefix, n - 1);
    }
}

proof fn lemma_name_start_is(path: Seq<char>, at: int, n: int)
    requires
        0 <= at <= n <= path.len(),
        at == 0 || path[at - 1] == '/',
        forall|i: int| at <= i < n ==> path[i] != '/',
    ensures
        name_start(path, n) == at,
    decreases n,
{
    if n > at {
        lemma_name_start_is(path, at, n - 1);
    }
}

/// The certificate of a key is named after the key.
pub proof fn law_certificate_is_named_after_key(name: Seq<char>, extension: Seq<char>)
    requires
        !extension.contains('.'),
    ensures
        cert_name(name + "-key.pem"@) == name + ".pem"@,
        !finishes_with(name, "-key"@) ==> cert_name(name + ".pem"@) == name + "-cert.pem"@,
        name.len() > 0 && extension != "pem"@ ==> cert_name(name + seq!['.'] + extension) == name
            + ".pem"@,
        extension.len() > 0 ==> cert_name(extension) == extension + ".pem"@,
{
    reveal_strlit("-key.pem");
    reveal_strlit(".pem");
    reveal_strlit("-key");
    reveal_strlit("pem");
    let a = name + "-key.pem"@;
    assert(a.skip(a.len() - 8) =~= "-key.pem"@);
    assert(a.take(a.len() - 8) =~= name);
    let b = name + ".pem"@;
    assert(b.skip(b.len() - 4) =~= ".pem"@);
    assert(b.take(b.len() - 4) =~= name);
    if finishes_with(b, "-key.pem"@) {
        let tail = b.skip(b.len() - 8);
        assert(name.skip(name.len() - 4) =~= tail.take(4));
        assert("-key.pem"@.take(4) =~= "-key"@);
    }
    let c = name + seq!['.'] + extension;
    if name.len() > 0 && extension != "pem"@ {
        law_stem_ends_at_last_dot(name, extension);
        lemma_pem_at_end(name + seq!['.'], extension);
    }
    law_stem_ends_at_last_dot(name, extension);
    if finishes_with(extension, ".pem"@) {
        let k = extension.len() - 4;
        assert(extension.skip(k)[0] == '.');
        assert(extension[k] == '.');
    }
    if finishes_with(extension, "-key.pem"@) {
        let k = extension.len() - 4;
        assert(extension.skip(extension.len() - 8)[4] == '.');
        assert(extension[k] == '.');
    }
}

/// A name that ends with `.pem` behind its last dot has `pem` there.
proof fn lemma_pem_at_end(front: Seq<char>, extension: Seq<char>)
    requires
        front.len() > 0,
        front.last() == '.',
        !extension.contains('.'),
        extension != "pem"@,
    ensures
        !finishes_with(front + extension, ".pem"@),
        !finishes_with(front + extension, "-key.pem"@),
{
    reveal_strlit("-key.pem");
    reveal_strlit(".pem");
    reveal_strlit("pem");
    let s = front + extension;
    if finishes_with(s, "-key.pem"@) {
        assert(s.skip(s.len() - 4) =~= s.skip(s.len() - 8).skip(4));
        assert("-key.pem"@.skip(4) =~= ".pem"@);
    }
    if finishes_with(s, ".pem"@) {
        let t = s.skip(s.len() - 4);
        assert(t[0] == '.' && t[1] == 'p' && t[2] == 'e' && t[3] == 'm');
        assert(s[s.len() - 4] == '.' && s[s.len() - 3] == 'p' && s[s.len() - 2] == 'e' && s[s.len()
            - 1] == 'm');
        let k = front.len() - 1;
        assert(s[k] == '.');
        if k < s.len() - 4 {
            assert(extension[s.len() - 4 - front.len()] == '.');
        }
        assert(k == s.len() - 4);
        assert(extension =~= "pem"@);
    }
}

} // verus!
