//! Certificates and keys: from PEM files to what an encrypted server presents.

use std::sync::Arc;

use rustls::pki_types::CertificateDer;
use rustls::pki_types::PrivateKeyDer;
use rustls::sign::CertifiedKey;
use rustls::ServerConfig;
use vstd::prelude::*;

use crate::outside;
use crate::sni;
use crate::sni::SniTable;
use crate::text;

verus! {

/// A PEM file as it was found: the text of the error where it could not be opened or read.
pub enum PemFile {
    Unopened(String),
    Unreadable(String),
    Bytes(Vec<u8>),
}

/// A message of the form `<words> <path>: <detail>`.
pub open spec fn complaint(words: Seq<char>, path: Seq<char>, detail: Seq<char>) -> Seq<char> {
    words + " "@ + path + ": "@ + detail
}

fn complain(words: &str, path: &str, detail: &str) -> (r: String)
    ensures
        r@ == complaint(words@, path@, detail@),
{
    let mut r = words.to_owned();
    r.append(" ");
    r.append(path);
    r.append(": ");
    r.append(detail);
    r
}

/// The certificates of a chain, or what is wrong with it. `parsed` is what was read out of
/// the file.
pub open spec fn chain_of(
    path: Seq<char>,
    parsed: Result<Seq<CertificateDer<'static>>, Seq<char>>,
) -> Result<Seq<CertificateDer<'static>>, Seq<char>> {
    match parsed {
        Ok(certs) => if certs.len() == 0 {
            Err("no certificates found in "@ + path)
        } else {
            Ok(certs)
        },
        Err(e) => Err(complaint("invalid TLS cert"@, path, e)),
    }
}

/// Checks what was read out of a certificate file.
pub fn checked_chain(
    path: &str,
    parsed: Result<Vec<CertificateDer<'static>>, String>,
) -> (r: Result<Vec<CertificateDer<'static>>, String>)
    ensures
        match chain_of(
            path@,
            match parsed {
                Ok(v) => Ok(v@),
                Err(e) => Err(e@),
            },
        ) {
            Ok(certs) => r matches Ok(v) && v@ == certs,
            Err(why) => r matches Err(e) && e@ == why,
        },
{
    match parsed {
        Ok(certs) => {
            if certs.len() == 0 {
                let mut why = "no certificates found in ".to_owned();
                why.append(path);
                return Err(why);
            }
            Ok(certs)
        },
        Err(e) => Err(complain("invalid TLS cert", path, e.as_str())),
    }
}

/// The private key, or what is wrong with its file. `parsed` is what was read out of it.
pub open spec fn key_of(
    path: Seq<char>,
    parsed: Result<Option<PrivateKeyDer<'static>>, Seq<char>>,
) -> Result<PrivateKeyDer<'static>, Seq<char>> {
    match parsed {
        Ok(Some(key)) => Ok(key),
        Ok(None) => Err("no private key found in "@ + path),
        Err(e) => Err(complaint("invalid TLS key"@, path, e)),
    }
}

/// Checks what was read out of a key file.
pub fn checked_key(path: &str, parsed: Result<Option<PrivateKeyDer<'static>>, String>) -> (r: Result<
    PrivateKeyDer<'static>,
    String,
>)
    ensures
        match key_of(
            path@,
            match parsed {
                Ok(k) => Ok(k),
                Err(e) => Err(e@),
            },
        ) {
            Ok(key) => r matches Ok(k) && k == key,
            Err(why) => r matches Err(e) && e@ == why,
        },
{
    match parsed {
        Ok(Some(key)) => Ok(key),
        Ok(None) => {
            let mut why = "no private key found in ".to_owned();
            why.append(path);
            Err(why)
        },
        Err(e) => Err(complain("invalid TLS key", path, e.as_str())),
    }
}

/// The chain in a certificate file.
pub open spec fn chain_in(path: Seq<char>, file: PemFile) -> Result<
    Seq<CertificateDer<'static>>,
    Seq<char>,
> {
    match file {
        PemFile::Unopened(e) => Err(complaint("could not read TLS cert"@, path, e@)),
        PemFile::Unreadable(e) => Err(complaint("invalid TLS cert"@, path, e@)),
        PemFile::Bytes(b) => chain_of(path, outside::pem_certificates(b@)),
    }
}

/// The key in a key file.
pub open spec fn key_in(path: Seq<char>, file: PemFile) -> Result<
    PrivateKeyDer<'static>,
    Seq<char>,
> {
    match file {
        PemFile::Unopened(e) => Err(complaint("could not read TLS key"@, path, e@)),
        PemFile::Unreadable(e) => Err(complaint("invalid TLS key"@, path, e@)),
        PemFile::Bytes(b) => key_of(path, outside::pem_private_key(b@)),
    }
}

/// Reads the chain in a certificate file.
pub fn read_chain(path: &str, file: &PemFile) -> (r: Result<Vec<CertificateDer<'static>>, String>)
    ensures
        match chain_in(path@, *file) {
            Ok(certs) => r matches Ok(v) && v@ == certs,
            Err(why) => r matches Err(e) && e@ == why,
        },
{
    match file {
        PemFile::Unopened(e) => Err(complain("could not read TLS cert", path, e.as_str())),
        PemFile::Unreadable(e) => Err(complain("invalid TLS cert", path, e.as_str())),
        PemFile::Bytes(b) => checked_chain(path, outside::read_certificates(b.as_slice())),
    }
}

/// Reads the key in a key file.
pub fn read_key(path: &str, file: &PemFile) -> (r: Result<PrivateKeyDer<'static>, String>)
    ensures
        match key_in(path@, *file) {
            Ok(key) => r matches Ok(k) && k == key,
            Err(why) => r matches Err(e) && e@ == why,
        },
{
    match file {
        PemFile::Unopened(e) => Err(complain("could not read TLS key", path, e.as_str())),
        PemFile::Unreadable(e) => Err(complain("invalid TLS key", path, e.as_str())),
        PemFile::Bytes(b) => checked_key(path, outside::read_private_key(b.as_slice())),
    }
}

/// What is wrong with a chain and a key that were put together.
pub open spec fn pair_complaint(pair: bool, detail: Seq<char>) -> Seq<char> {
    if pair {
        "TLS cert/key mismatch: "@ + detail
    } else {
        "TLS config error: "@ + detail
    }
}

/// Says what is wrong with a chain and a key that were put together.
pub fn pair_failure(pair: bool, detail: &str) -> (r: String)
    ensures
        r@ == pair_complaint(pair, detail@),
{
    let mut r = if pair {
        "TLS cert/key mismatch: ".to_owned()
    } else {
        "TLS config error: ".to_owned()
    };
    r.append(detail);
    r
}

/// The chain and the key that two files hold, or what is wrong: with the certificate file
/// first, then with the key file.
pub open spec fn pair_in(
    cert_path: Seq<char>,
    key_path: Seq<char>,
    cert: PemFile,
    key: PemFile,
) -> Result<(Seq<CertificateDer<'static>>, PrivateKeyDer<'static>), Seq<char>> {
    match chain_in(cert_path, cert) {
        Err(e) => Err(e),
        Ok(certs) => match key_in(key_path, key) {
            Err(e) => Err(e),
            Ok(k) => Ok((certs, k)),
        },
    }
}

/// What may come of making a configuration of two files: what is wrong with the files, else a
/// configuration that was made for their chain and key, or why they were refused.
pub open spec fn configured(
    cert_path: Seq<char>,
    key_path: Seq<char>,
    cert: PemFile,
    key: PemFile,
    r: Result<ServerConfig, Seq<char>>,
) -> bool {
    match pair_in(cert_path, key_path, cert, key) {
        Err(why) => r == Err::<ServerConfig, Seq<char>>(why),
        Ok((certs, k)) => match r {
            Ok(c) => outside::made_for(c, certs, k),
            Err(e) => exists|pair: bool, why: Seq<char>| #[trigger]
                outside::refused_pair(certs, k, pair, why) && e == pair_complaint(pair, why),
        },
    }
}

proof fn lemma_refused_pair(
    cert_path: Seq<char>,
    key_path: Seq<char>,
    cert: PemFile,
    key: PemFile,
    certs: Seq<CertificateDer<'static>>,
    k: PrivateKeyDer<'static>,
    pair: bool,
    why: Seq<char>,
)
    requires
        chain_in(cert_path, cert) == Ok::<Seq<CertificateDer<'static>>, Seq<char>>(certs),
        key_in(key_path, key) == Ok::<PrivateKeyDer<'static>, Seq<char>>(k),
        outside::refused_pair(certs, k, pair, why),
    ensures
        configured(cert_path, key_path, cert, key, Err(pair_complaint(pair, why))),
{
    let held = pair_in(cert_path, key_path, cert, key);
    assert(held->Ok_0.0 == certs && held->Ok_0.1 == k);
}

/// What is returned for each outcome of putting a chain and a key together.
pub fn config_result(outcome: Result<ServerConfig, (bool, String)>) -> (r: Result<
    Arc<ServerConfig>,
    String,
>)
    ensures
        match outcome {
            Ok(c) => r matches Ok(config) && *config == c,
            Err((pair, why)) => r matches Err(e) && e@ == pair_complaint(pair, why@),
        },
{
    match outcome {
        Ok(c) => Ok(Arc::new(c)),
        Err((pair, e)) => Err(pair_failure(pair, e.as_str())),
    }
}

/// The configuration of a server with one certificate.
pub fn build_tls_config(cert_path: &str, key_path: &str, cert: &PemFile, key: &PemFile) -> (r:
    Result<Arc<ServerConfig>, String>)
    ensures
        configured(
            cert_path@,
            key_path@,
            *cert,
            *key,
            match r {
                Ok(config) => Ok(*config),
                Err(e) => Err(e@),
            },
        ),
{
    let certs = match read_chain(cert_path, cert) {
        Ok(v) => v,
        Err(e) => {
            return Err(e);
        },
    };
    let private = match read_key(key_path, key) {
        Ok(k) => k,
        Err(e) => {
            return Err(e);
        },
    };
    let ghost chain = certs@;
    let outcome = outside::make_config(certs, private);
    proof {
        if outcome is Err {
            let (pair, why) = outcome->Err_0;
            lemma_refused_pair(cert_path@, key_path@, *cert, *key, chain, private, pair, why@);
        }
    }
    config_result(outcome)
}

/// What may come of making a certified key of two files: what is wrong with the files, else a
/// certified key that was made for their chain and key, or why the key was refused.
pub open spec fn certified(
    cert_path: Seq<char>,
    key_path: Seq<char>,
    cert: PemFile,
    key: PemFile,
    r: Result<CertifiedKey, Seq<char>>,
) -> bool {
    match pair_in(cert_path, key_path, cert, key) {
        Err(why) => r == Err::<CertifiedKey, Seq<char>>(why),
        Ok((certs, k)) => match r {
            Ok(c) => outside::certified_for(c, certs, k),
            Err(e) => exists|why: Seq<char>| #[trigger]
                outside::refused_key(k, why) && e == complaint(
                    "unsupported TLS key in"@,
                    key_path,
                    why,
                ),
        },
    }
}

proof fn lemma_refused_key(
    cert_path: Seq<char>,
    key_path: Seq<char>,
    cert: PemFile,
    key: PemFile,
    certs: Seq<CertificateDer<'static>>,
    k: PrivateKeyDer<'static>,
    why: Seq<char>,
)
    requires
        chain_in(cert_path, cert) == Ok::<Seq<CertificateDer<'static>>, Seq<char>>(certs),
        key_in(key_path, key) == Ok::<PrivateKeyDer<'static>, Seq<char>>(k),
        outside::refused_key(k, why),
    ensures
        certified(
            cert_path,
            key_path,
            cert,
            key,
            Err(complaint("unsupported TLS key in"@, key_path, why)),
        ),
{
    let held = pair_in(cert_path, key_path, cert, key);
    assert(held->Ok_0.0 == certs && held->Ok_0.1 == k);
}

/// What is returned for each outcome of reading a signing key.
pub fn certified_result(key_path: &str, outcome: Result<CertifiedKey, String>) -> (r: Result<
    CertifiedKey,
    String,
>)
    ensures
        match outcome {
            Ok(c) => r == Ok::<CertifiedKey, String>(c),
            Err(why) => r matches Err(e) && e@ == complaint(
                "unsupported TLS key in"@,
                key_path@,
                why@,
            ),
        },
{
    match outcome {
        Ok(c) => Ok(c),
        Err(e) => Err(complain("unsupported TLS key in", key_path, e.as_str())),
    }
}

/// The chain with its signing key that one of several hosts presents.
pub fn load_certified_key(cert_path: &str, key_path: &str, cert: &PemFile, key: &PemFile) -> (r:
    Result<CertifiedKey, String>)
    ensures
        certified(
            cert_path@,
            key_path@,
            *cert,
            *key,
            match r {
                Ok(c) => Ok(c),
                Err(e) => Err(e@),
            },
        ),
{
    let certs = match read_chain(cert_path, cert) {
        Ok(v) => v,
        Err(e) => {
            return Err(e);
        },
    };
    let private = match read_key(key_path, key) {
        Ok(k) => k,
        Err(e) => {
            return Err(e);
        },
    };
    let ghost chain = certs@;
    let outcome = outside::certify(certs, private);
    proof {
        if outcome is Err {
            let why = outcome->Err_0@;
            lemma_refused_key(cert_path@, key_path@, *cert, *key, chain, private, why);
        }
    }
    certified_result(key_path, outcome)
}

// ---------------------------------------------------------------------------
// Several hosts
// ---------------------------------------------------------------------------

/// The files of a host: its name, or `*.domain` for all hosts below a domain.
pub struct HostPem {
    pub pattern: String,
    pub cert_path: String,
    pub key_path: String,
    pub cert: PemFile,
    pub key: PemFile,
}

impl HostPem {
    /// The chain and the key in the files, or what is wrong with them.
    pub open spec fn pair(&self) -> Result<
        (Seq<CertificateDer<'static>>, PrivateKeyDer<'static>),
        Seq<char>,
    > {
        pair_in(self.cert_path@, self.key_path@, self.cert, self.key)
    }

    /// What may come of making a certified key of the files.
    pub open spec fn gives(&self, r: Result<CertifiedKey, Seq<char>>) -> bool {
        certified(self.cert_path@, self.key_path@, self.cert, self.key, r)
    }

    /// The files are those of a domain.
    pub open spec fn is_domain(&self) -> bool {
        text::has_prefix(self.pattern@, seq!['*', '.'])
    }

    /// What a name below the domain ends in.
    pub open spec fn domain_suffix(&self) -> Seq<char> {
        seq!['.'] + text::lower_ascii(self.pattern@.skip(2))
    }
}

/// The certificates of a server with several hosts. The numbers in `table` are positions in
/// `certs`.
pub struct SniKeys {
    pub default: CertifiedKey,
    pub certs: Vec<CertifiedKey>,
    pub table: SniTable,
}

impl SniKeys {
    /// The certificates were made of the files of these hosts, each in its place.
    pub open spec fn made_of(&self, hosts: Seq<HostPem>) -> bool {
        &&& self.certs@.len() == hosts.len()
        &&& forall|i: int|
            0 <= i < hosts.len() ==> hosts[i].gives(Ok(#[trigger] self.certs@[i]))
        &&& sni::named(self.table.by_name@) == names_in(hosts, hosts.len())
        &&& sni::named(self.table.wildcards@) == domains_in(hosts, hosts.len())
    }

    /// The certificate that a client is presented who names that host, or none.
    pub open spec fn presented(&self, server_name: Option<Seq<char>>) -> CertifiedKey {
        match sni::certificate(
            sni::named(self.table.by_name@),
            sni::named(self.table.wildcards@),
            server_name,
        ) {
            Some(i) => self.certs@[i as int],
            None => self.default,
        }
    }
}

/// The names among the first `n` hosts, each with its position.
pub open spec fn names_in(hosts: Seq<HostPem>, n: nat) -> Seq<(Seq<char>, usize)>
    decreases n,
{
    if n == 0 || n > hosts.len() {
        seq![]
    } else {
        let before = names_in(hosts, (n - 1) as nat);
        let h = hosts[n - 1];
        if h.is_domain() {
            before
        } else {
            before.push((text::lower_ascii(h.pattern@), (n - 1) as usize))
        }
    }
}

/// The domains among the first `n` hosts, each with its position.
pub open spec fn domains_in(hosts: Seq<HostPem>, n: nat) -> Seq<(Seq<char>, usize)>
    decreases n,
{
    if n == 0 || n > hosts.len() {
        seq![]
    } else {
        let before = domains_in(hosts, (n - 1) as nat);
        let h = hosts[n - 1];
        if h.is_domain() {
            before.push((h.domain_suffix(), (n - 1) as usize))
        } else {
            before
        }
    }
}

/// The certificates of a server with several hosts. The first fault is reported: of the
/// default certificate, then of the hosts in turn.
pub fn build_tls_config_sni(
    default_cert: &str,
    default_key: &str,
    cert: &PemFile,
    key: &PemFile,
    hosts: &Vec<HostPem>,
) -> (r: Result<SniKeys, String>)
    ensures
        match r {
            Ok(k) => {
                &&& certified(default_cert@, default_key@, *cert, *key, Ok(k.default))
                &&& k.made_of(hosts@)
            },
            Err(e) => {
                ||| certified(default_cert@, default_key@, *cert, *key, Err(e@))
                ||| {
                    &&& pair_in(default_cert@, default_key@, *cert, *key) is Ok
                    &&& exists|i: int|
                        0 <= i < hosts@.len() && (#[trigger] hosts@[i]).gives(Err(e@)) && forall|j:
                            int|
                            0 <= j < i ==> (#[trigger] hosts@[j]).pair() is Ok
                }
            },
        },
{
    let default = match load_certified_key(default_cert, default_key, cert, key) {
        Ok(c) => c,
        Err(e) => {
            return Err(e);
        },
    };
    let mut certs: Vec<CertifiedKey> = Vec::new();
    let mut table = SniTable::new();
    assert(sni::named(table.by_name@) =~= names_in(hosts@, 0));
    assert(sni::named(table.wildcards@) =~= domains_in(hosts@, 0));
    let mut i: usize = 0;
    while i < hosts.len()
        invariant
            i <= hosts@.len(),
            certs@.len() == i,
            certified(default_cert@, default_key@, *cert, *key, Ok(default)),
            pair_in(default_cert@, default_key@, *cert, *key) is Ok,
            forall|j: int| 0 <= j < i ==> hosts@[j].gives(Ok(#[trigger] certs@[j])),
            forall|j: int| 0 <= j < i ==> (#[trigger] hosts@[j]).pair() is Ok,
            sni::named(table.by_name@) == names_in(hosts@, i as nat),
            sni::named(table.wildcards@) == domains_in(hosts@, i as nat),
        decreases hosts.len() - i,
    {
        let h = &hosts[i];
        match load_certified_key(h.cert_path.as_str(), h.key_path.as_str(), &h.cert, &h.key) {
            Ok(c) => certs.push(c),
            Err(e) => {
                return Err(e);
            },
        }
        table.add_host(h.pattern.as_str(), i);
        i = i + 1;
    }
    Ok(SniKeys { default, certs, table })
}

/// A fault of the certificate file is reported before any fault of the key file.
pub proof fn law_certificate_faults_come_first(
    cert_path: Seq<char>,
    key_path: Seq<char>,
    cert: PemFile,
    key: PemFile,
)
    ensures
        chain_in(cert_path, cert) matches Err(e) ==> {
            &&& forall|r: Result<ServerConfig, Seq<char>>| #[trigger]
                configured(cert_path, key_path, cert, key, r) ==> r == Err::<
                    ServerConfig,
                    Seq<char>,
                >(e)
            &&& forall|r: Result<CertifiedKey, Seq<char>>| #[trigger]
                certified(cert_path, key_path, cert, key, r) ==> r == Err::<
                    CertifiedKey,
                    Seq<char>,
                >(e)
        },
{
}

proof fn lemma_last_name(hosts: Seq<HostPem>, n: nat, i: int, name: Seq<char>)
    requires
        0 <= i < n <= hosts.len(),
        hosts.len() <= usize::MAX,
        !hosts[i].is_domain(),
        text::lower_ascii(hosts[i].pattern@) == name,
        forall|j: int|
            i < j < n ==> (#[trigger] hosts[j]).is_domain() || text::lower_ascii(hosts[j].pattern@)
                != name,
    ensures
        sni::last_named(names_in(hosts, n), name) == Some(i as usize),
    decreases n,
{
    let before = names_in(hosts, (n - 1) as nat);
    let h = hosts[n - 1];
    if i < n - 1 {
        lemma_last_name(hosts, (n - 1) as nat, i, name);
    }
    if !h.is_domain() {
        assert(names_in(hosts, n).drop_last() =~= before);
    }
}

proof fn lemma_no_name(hosts: Seq<HostPem>, n: nat, name: Seq<char>)
    requires
        n <= hosts.len(),
        forall|j: int|
            0 <= j < n ==> (#[trigger] hosts[j]).is_domain() || text::lower_ascii(hosts[j].pattern@)
                != name,
    ensures
        sni::last_named(names_in(hosts, n), name) is None,
    decreases n,
{
    if n > 0 {
        lemma_no_name(hosts, (n - 1) as nat, name);
        if !hosts[n - 1].is_domain() {
            assert(names_in(hosts, n).drop_last() =~= names_in(hosts, (n - 1) as nat));
        }
    }
}

proof fn lemma_suffix_push(v: Seq<(Seq<char>, usize)>, e: (Seq<char>, usize), name: Seq<char>)
    ensures
        sni::first_suffix(v.push(e), name) == match sni::first_suffix(v, name) {
            Some(c) => Some(c),
            None => if text::has_suffix(name, e.0) {
                Some(e.1)
            } else {
                None
            },
        },
    decreases v.len(),
{
    if v.len() == 0 {
        assert(v.push(e).drop_first() =~= v);
    } else {
        assert(v.push(e).drop_first() =~= v.drop_first().push(e));
        lemma_suffix_push(v.drop_first(), e, name);
    }
}

proof fn lemma_no_domain(hosts: Seq<HostPem>, n: nat, name: Seq<char>)
    requires
        n <= hosts.len(),
        forall|j: int|
            0 <= j < n && (#[trigger] hosts[j]).is_domain() ==> !text::has_suffix(
                name,
                hosts[j].domain_suffix(),
            ),
    ensures
        sni::first_suffix(domains_in(hosts, n), name) is None,
    decreases n,
{
    if n > 0 {
        let h = hosts[n - 1];
        lemma_no_domain(hosts, (n - 1) as nat, name);
        if h.is_domain() {
            lemma_suffix_push(
                domains_in(hosts, (n - 1) as nat),
                (h.domain_suffix(), (n - 1) as usize),
                name,
            );
        }
    }
}

proof fn lemma_first_domain(hosts: Seq<HostPem>, n: nat, i: int, name: Seq<char>)
    requires
        0 <= i < n <= hosts.len(),
        hosts.len() <= usize::MAX,
        hosts[i].is_domain(),
        text::has_suffix(name, hosts[i].domain_suffix()),
        forall|j: int|
            0 <= j < i && (#[trigger] hosts[j]).is_domain() ==> !text::has_suffix(
                name,
                hosts[j].domain_suffix(),
            ),
    ensures
        sni::first_suffix(domains_in(hosts, n), name) == Some(i as usize),
    decreases n,
{
    let before = domains_in(hosts, (n - 1) as nat);
    let h = hosts[n - 1];
    if i < n - 1 {
        lemma_first_domain(hosts, (n - 1) as nat, i, name);
    } else {
        lemma_no_domain(hosts, (n - 1) as nat, name);
    }
    if h.is_domain() {
        lemma_suffix_push(before, (h.domain_suffix(), (n - 1) as usize), name);
    }
}

/// A client that names a host is presented a certificate that was made for the chain and key
/// that were given last for that very name, whatever its case.
pub proof fn law_host_presents_its_certificate(
    keys: SniKeys,
    hosts: Seq<HostPem>,
    i: int,
    name: Seq<char>,
)
    requires
        keys.made_of(hosts),
        0 <= i < hosts.len() <= usize::MAX,
        !hosts[i].is_domain(),
        text::lower_ascii(hosts[i].pattern@) == text::lower_ascii(name),
        forall|j: int|
            i < j < hosts.len() ==> (#[trigger] hosts[j]).is_domain() || text::lower_ascii(
                hosts[j].pattern@,
            ) != text::lower_ascii(name),
    ensures
        hosts[i].pair() matches Ok((certs, key)) && outside::certified_for(
            keys.presented(Some(name)),
            certs,
            key,
        ),
{
    lemma_last_name(hosts, hosts.len(), i, text::lower_ascii(name));
    assert(hosts[i].gives(Ok(keys.certs@[i])));
}

/// A client that names a host without a certificate of its own is presented one that was made
/// for the chain and key of the first domain that the host lies below.
pub proof fn law_domain_presents_its_certificate(
    keys: SniKeys,
    hosts: Seq<HostPem>,
    i: int,
    name: Seq<char>,
)
    requires
        keys.made_of(hosts),
        0 <= i < hosts.len() <= usize::MAX,
        hosts[i].is_domain(),
        text::has_suffix(text::lower_ascii(name), hosts[i].domain_suffix()),
        forall|j: int|
            0 <= j < hosts.len() ==> (#[trigger] hosts[j]).is_domain() || text::lower_ascii(
                hosts[j].pattern@,
            ) != text::lower_ascii(name),
        forall|j: int|
            0 <= j < i && (#[trigger] hosts[j]).is_domain() ==> !text::has_suffix(
                text::lower_ascii(name),
                hosts[j].domain_suffix(),
            ),
    ensures
        hosts[i].pair() matches Ok((certs, key)) && outside::certified_for(
            keys.presented(Some(name)),
            certs,
            key,
        ),
{
    lemma_no_name(hosts, hosts.len(), text::lower_ascii(name));
    lemma_first_domain(hosts, hosts.len(), i, text::lower_ascii(name));
    assert(hosts[i].gives(Ok(keys.certs@[i])));
}

/// A client that names a host that no entry covers, or none, is presented the default
/// certificate.
pub proof fn law_others_are_presented_the_default(
    keys: SniKeys,
    hosts: Seq<HostPem>,
    name: Seq<char>,
)
    requires
        keys.made_of(hosts),
        forall|j: int|
            0 <= j < hosts.len() ==> (#[trigger] hosts[j]).is_domain() || text::lower_ascii(
                hosts[j].pattern@,
            ) != text::lower_ascii(name),
        forall|j: int|
            0 <= j < hosts.len() && (#[trigger] hosts[j]).is_domain() ==> !text::has_suffix(
                text::lower_ascii(name),
                hosts[j].domain_suffix(),
            ),
    ensures
        keys.presented(Some(name)) == keys.default,
        keys.presented(None) == keys.default,
{
    lemma_no_name(hosts, hosts.len(), text::lower_ascii(name));
    lemma_no_domain(hosts, hosts.len(), text::lower_ascii(name));
}

/// What is wrong with a file is told with what it was to hold, its path and the reason: that it
/// could not be opened, that it could not be read, that it holds nothing of the kind. A file
/// without a fault gives what it holds.
pub proof fn law_faults_of_files_are_told(path: Seq<char>, e: String, b: Vec<u8>)
    ensures
        chain_in(path, PemFile::Unopened(e)) == Err::<Seq<CertificateDer<'static>>, Seq<char>>(
            "could not read TLS cert"@ + seq![' '] + path + seq![':', ' '] + e@,
        ),
        chain_in(path, PemFile::Unreadable(e)) == Err::<Seq<CertificateDer<'static>>, Seq<char>>(
            "invalid TLS cert"@ + seq![' '] + path + seq![':', ' '] + e@,
        ),
        outside::pem_certificates(b@) matches Err(why) ==> chain_in(path, PemFile::Bytes(b)) == Err::<
            Seq<CertificateDer<'static>>,
            Seq<char>,
        >("invalid TLS cert"@ + seq![' '] + path + seq![':', ' '] + why),
        outside::pem_certificates(b@) matches Ok(certs) ==> chain_in(path, PemFile::Bytes(b))
            == if certs.len() == 0 {
            Err::<Seq<CertificateDer<'static>>, Seq<char>>("no certificates found in "@ + path)
        } else {
            Ok::<Seq<CertificateDer<'static>>, Seq<char>>(certs)
        },
        key_in(path, PemFile::Unopened(e)) == Err::<PrivateKeyDer<'static>, Seq<char>>(
            "could not read TLS key"@ + seq![' '] + path + seq![':', ' '] + e@,
        ),
        key_in(path, PemFile::Unreadable(e)) == Err::<PrivateKeyDer<'static>, Seq<char>>(
            "invalid TLS key"@ + seq![' '] + path + seq![':', ' '] + e@,
        ),
        outside::pem_private_key(b@) matches Err(why) ==> key_in(path, PemFile::Bytes(b)) == Err::<
            PrivateKeyDer<'static>,
            Seq<char>,
        >("invalid TLS key"@ + seq![' '] + path + seq![':', ' '] + why),
        outside::pem_private_key(b@) matches Ok(found) ==> key_in(path, PemFile::Bytes(b))
            == match found {
            Some(key) => Ok::<PrivateKeyDer<'static>, Seq<char>>(key),
            None => Err::<PrivateKeyDer<'static>, Seq<char>>("no private key found in "@ + path),
        },
{
    reveal_strlit(" ");
    reveal_strlit(": ");
    assert(" "@ =~= seq![' ']);
    assert(": "@ =~= seq![':', ' ']);
}

/// Files without a fault give a configuration and a certified key that were made for their own
/// chain and key, whatever else comes of them.
pub proof fn law_files_are_used_together(
    cert_path: Seq<char>,
    key_path: Seq<char>,
    cert: PemFile,
    key: PemFile,
    config: ServerConfig,
    certified_key: CertifiedKey,
)
    ensures
        pair_in(cert_path, key_path, cert, key) is Ok <==> chain_in(cert_path, cert) is Ok && key_in(
            key_path,
            key,
        ) is Ok,
        configured(cert_path, key_path, cert, key, Ok(config)) ==> chain_in(cert_path, cert) is Ok
            && key_in(key_path, key) is Ok && outside::made_for(
            config,
            chain_in(cert_path, cert)->Ok_0,
            key_in(key_path, key)->Ok_0,
        ),
        certified(cert_path, key_path, cert, key, Ok(certified_key)) ==> chain_in(
            cert_path,
            cert,
        ) is Ok && key_in(key_path, key) is Ok && outside::certified_for(
            certified_key,
            chain_in(cert_path, cert)->Ok_0,
            key_in(key_path, key)->Ok_0,
        ),
        chain_in(cert_path, cert) is Ok && key_in(key_path, key) is Err ==> pair_in(
            cert_path,
            key_path,
            cert,
            key,
        )->Err_0 == key_in(key_path, key)->Err_0,
{
}

/// Files are those of a domain where their pattern begins with `*.`, and the names below it end
/// in a dot and the domain, whatever the case: the domain alone does not.
pub proof fn law_domains_of_files(h: HostPem, domain: Seq<char>, sub: Seq<char>)
    ensures
        h.pattern@ == seq!['*', '.'] + domain ==> h.is_domain() && text::has_suffix(
            text::lower_ascii(sub + seq!['.'] + domain),
            h.domain_suffix(),
        ) && !text::has_suffix(text::lower_ascii(domain), h.domain_suffix()) && h.domain_suffix()
            == seq!['.'] + text::lower_ascii(domain),
        h.pattern@.len() > 0 && h.pattern@[0] != '*' ==> !h.is_domain(),
        h.pair() == pair_in(h.cert_path@, h.key_path@, h.cert, h.key),
{
    if h.pattern@ == seq!['*', '.'] + domain {
        assert(h.pattern@.take(2) =~= seq!['*', '.']);
        assert(h.pattern@.skip(2) =~= domain);
        let all = text::lower_ascii(sub + seq!['.'] + domain);
        let end = seq!['.'] + text::lower_ascii(domain);
        assert(all =~= text::lower_ascii(sub) + end);
        assert(all.skip(all.len() - end.len()) =~= end);
    }
    if h.pattern@.len() > 0 && h.pattern@[0] != '*' && h.is_domain() {
        assert(h.pattern@.take(2)[0] == '*');
    }
}

/// A chain and a key that are refused are told apart from a configuration that cannot be made,
/// and a key that cannot sign is told with its path.
pub proof fn law_refusals_are_told(
    cert_path: Seq<char>,
    key_path: Seq<char>,
    cert: PemFile,
    key: PemFile,
    e: Seq<char>,
)
    requires
        chain_in(cert_path, cert) is Ok,
        key_in(key_path, key) is Ok,
    ensures
        ({
            let certs = chain_in(cert_path, cert)->Ok_0;
            let k = key_in(key_path, key)->Ok_0;
            &&& configured(cert_path, key_path, cert, key, Err(e)) <==> ((exists|why: Seq<char>|
                #[trigger]
                outside::refused_pair(certs, k, true, why) && e == "TLS cert/key mismatch: "@ + why)
                || (exists|why: Seq<char>| #[trigger]
                outside::refused_pair(certs, k, false, why) && e == "TLS config error: "@ + why))
            &&& certified(cert_path, key_path, cert, key, Err(e)) <==> exists|why: Seq<char>|
                #[trigger] outside::refused_key(k, why) && e == "unsupported TLS key in"@ + seq![' ']
                    + key_path + seq![':', ' '] + why
        }),
{
    reveal_strlit(" ");
    reveal_strlit(": ");
    assert(" "@ =~= seq![' ']);
    assert(": "@ =~= seq![':', ' ']);
    let certs = chain_in(cert_path, cert)->Ok_0;
    let k = key_in(key_path, key)->Ok_0;
    let held = pair_in(cert_path, key_path, cert, key);
    assert(held->Ok_0.0 == certs && held->Ok_0.1 == k);
    if configured(cert_path, key_path, cert, key, Err(e)) {
        let (pair, why) = choose|pair: bool, why: Seq<char>| #[trigger]
            outside::refused_pair(certs, k, pair, why) && e == pair_complaint(pair, why);
        if pair {
            assert(outside::refused_pair(certs, k, true, why));
        } else {
            assert(outside::refused_pair(certs, k, false, why));
        }
    }
    if exists|why: Seq<char>| #[trigger]
        outside::refused_pair(certs, k, true, why) && e == "TLS cert/key mismatch: "@ + why {
        let why = choose|why: Seq<char>| #[trigger]
            outside::refused_pair(certs, k, true, why) && e == "TLS cert/key mismatch: "@ + why;
        lemma_refused_pair(cert_path, key_path, cert, key, certs, k, true, why);
    }
    if exists|why: Seq<char>| #[trigger]
        outside::refused_pair(certs, k, false, why) && e == "TLS config error: "@ + why {
        let why = choose|why: Seq<char>| #[trigger]
            outside::refused_pair(certs, k, false, why) && e == "TLS config error: "@ + why;
        lemma_refused_pair(cert_path, key_path, cert, key, certs, k, false, why);
    }
    if certified(cert_path, key_path, cert, key, Err(e)) {
        let why = choose|why: Seq<char>| #[trigger]
            outside::refused_key(k, why) && e == complaint("unsupported TLS key in"@, key_path, why);
        assert(outside::refused_key(k, why));
    }
}

} // verus!
