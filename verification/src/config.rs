//! A server's TLS configuration, from PEM.

use rustls::pki_types::pem;
use rustls::pki_types::pem::PemObject;
use rustls::pki_types::{CertificateDer, PrivateKeyDer};
use rustls::ServerConfig;
use std::sync::Arc;
use vstd::prelude::*;

use crate::crypto;

verus! {

#[verifier::external_type_specification]
#[verifier::external_body]
pub struct ExCertificateDer<'a>(CertificateDer<'a>);

#[verifier::external_type_specification]
#[verifier::external_body]
pub struct ExPrivateKeyDer<'a>(PrivateKeyDer<'a>);

#[verifier::external_type_specification]
#[verifier::external_body]
pub struct ExPemError(pem::Error);

/// Why there is no configuration.
#[derive(Debug)]
pub enum ConfigError {
    /// The certificates are not sound PEM.
    Certificates(pem::Error),
    /// There is no private key.
    NoPrivateKey,
    /// The private key is not sound PEM.
    PrivateKey(pem::Error),
    /// No crypto provider is installed.
    NoProvider,
    /// The certificates and the key make no configuration.
    Tls(rustls::Error),
}

/// The certificates in a PEM text, in order, or its first error.
pub uninterp spec fn pem_certificates(pem: Seq<u8>) -> Result<
    Seq<CertificateDer<'static>>,
    pem::Error,
>;

/// The first private key in a PEM text, or an error before it, if either is
/// there.
pub uninterp spec fn pem_private_key(pem: Seq<u8>) -> Option<
    Result<PrivateKeyDer<'static>, pem::Error>,
>;

/// The certificates and the private key that a configuration was made with.
pub uninterp spec fn config_source(config: &ServerConfig) -> (
    Seq<CertificateDer<'static>>,
    PrivateKeyDer<'static>,
);

/// `CertificateDer::pem_slice_iter`, to its end or its first error: the
/// certificates of the text.
#[verifier::external_body]
fn parse_certificates(pem: &[u8]) -> (r: Result<Vec<CertificateDer<'static>>, pem::Error>)
    ensures
        match pem_certificates(pem@) {
            Ok(certs) => r matches Ok(v) && v@ == certs,
            Err(e) => r == Err::<Vec<CertificateDer<'static>>, _>(e),
        },
{
    CertificateDer::pem_slice_iter(pem).collect()
}

/// `PrivateKeyDer::pem_slice_iter`, its first item: the private key of the text.
#[verifier::external_body]
fn parse_private_key(pem: &[u8]) -> (r: Option<Result<PrivateKeyDer<'static>, pem::Error>>)
    ensures
        r == pem_private_key(pem@),
{
    PrivateKeyDer::pem_slice_iter(pem).next()
}

/// `rustls::ServerConfig::builder_with_provider`, for TLS 1.3, no client
/// certificates and `with_single_cert`: a configuration with the given
/// certificates and key. It takes the process's default provider; `None` where
/// there is none. Whether that provider can use them is left unsaid.
#[verifier::external_body]
fn tls13_config(certs: Vec<CertificateDer<'static>>, key: PrivateKeyDer<'static>) -> (r: Option<
    Result<Arc<ServerConfig>, rustls::Error>,
>)
    ensures
        r matches Some(Ok(config)) ==> config_source(&*config) == (certs@, key),
{
    let provider = rustls::crypto::CryptoProvider::get_default()?.clone();
    let versions = &[&rustls::version::TLS13];
    let builder = match ServerConfig::builder_with_provider(provider).with_protocol_versions(versions) {
        Ok(builder) => builder,
        Err(e) => return Some(Err(e)),
    };
    let config = builder.with_no_client_auth().with_single_cert(certs, key);
    Some(config.map(Arc::new))
}

/// What [`server_config_from_pem`] makes of building the configuration.
pub fn config_outcome(built: Option<Result<Arc<ServerConfig>, rustls::Error>>) -> (r: Result<
    Arc<ServerConfig>,
    ConfigError,
>)
    ensures
        r == match built {
            Some(Ok(config)) => Ok::<_, ConfigError>(config),
            Some(Err(e)) => Err(ConfigError::Tls(e)),
            None => Err(ConfigError::NoProvider),
        },
{
    match built {
        Some(Ok(config)) => Ok(config),
        Some(Err(e)) => Err(ConfigError::Tls(e)),
        None => Err(ConfigError::NoProvider),
    }
}

/// The configuration of a server with the certificates and the private key of
/// two PEM texts.
pub fn server_config_from_pem(cert_pem: &[u8], key_pem: &[u8]) -> (r: Result<
    Arc<ServerConfig>,
    ConfigError,
>)
    ensures
        match (pem_certificates(cert_pem@), pem_private_key(key_pem@)) {
            (Err(e), _) => r == Err::<Arc<ServerConfig>, _>(ConfigError::Certificates(e)),
            (Ok(_), None) => r == Err::<Arc<ServerConfig>, _>(ConfigError::NoPrivateKey),
            (Ok(_), Some(Err(e))) => r == Err::<Arc<ServerConfig>, _>(ConfigError::PrivateKey(e)),
            (Ok(certs), Some(Ok(key))) => match r {
                Ok(config) => config_source(&*config) == (certs, key),
                Err(e) => e is Tls || e is NoProvider,
            },
        },
{
    let _ = crypto::install_provider();
    let certs = match parse_certificates(cert_pem) {
        Ok(certs) => certs,
        Err(e) => {
            return Err(ConfigError::Certificates(e));
        },
    };
    let key = match parse_private_key(key_pem) {
        Some(Ok(key)) => key,
        Some(Err(e)) => {
            return Err(ConfigError::PrivateKey(e));
        },
        None => {
            return Err(ConfigError::NoPrivateKey);
        },
    };
    config_outcome(tls13_config(certs, key))
}

} // verus!
