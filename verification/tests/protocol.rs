use fulcio::{
    decode_sct_version, decode_signing_request, CertificateChain, CertificateResponse,
    CreateSigningCertificateRequest, FulcioError, SCTVersion, SigningCertificate,
    SigningCertificateEmbeddedSCT,
};

use pkcs8::der::{DecodePem, EncodePem};
use x509_cert::request::{CertReq, CertReqInfo};

const LEAF_PEM: &str = "-----BEGIN CERTIFICATE-----\nMIIBtjCCAVugAwIBAgITBmyf1XSXNmY/Owua2eiedgPySjAKBggqhkjOPQQDAjA5\nMQswCQYDVQQGEwJVUzEPMA0GA1UEChMGQW1hem9uMRkwFwYDVQQDExBBbWF6b24g\nUm9vdCBDQSAzMB4XDTE1MDUyNjAwMDAwMFoXDTQwMDUyNjAwMDAwMFowOTELMAkG\nA1UEBhMCVVMxDzANBgNVBAoTBkFtYXpvbjEZMBcGA1UEAxMQQW1hem9uIFJvb3Qg\nQ0EgMzBZMBMGByqGSM49AgEGCCqGSM49AwEHA0IABCmXp8ZBf8ANm+gBG1bG8lKl\nui2yEujSLtf6ycXYqm0fc4E7O5hrOXwzpcVOho6AF2hiRVd9RFgdszflZwjrZt6j\nQjBAMA8GA1UdEwEB/wQFMAMBAf8wDgYDVR0PAQH/BAQDAgGGMB0GA1UdDgQWBBSr\nttvXBp43rDCGB5Fwx5zEGbF4wDAKBggqhkjOPQQDAgNJADBGAiEA4IWSoxe3jfkr\nBqWTrBqYaGFy+uGh0PsceGCmQ5nFuMQCIQCcAu/xlJyzlvnrxir4tiz+OpAUFteM\nYyRIHN8wfdVoOw==\n-----END CERTIFICATE-----\n";

const INTERMEDIATE_PEM: &str = "-----BEGIN CERTIFICATE-----\nMIIB8jCCAXigAwIBAgITBmyf18G7EEwpQ+Vxe3ssyBrBDjAKBggqhkjOPQQDAzA5\nMQswCQYDVQQGEwJVUzEPMA0GA1UEChMGQW1hem9uMRkwFwYDVQQDExBBbWF6b24g\nUm9vdCBDQSA0MB4XDTE1MDUyNjAwMDAwMFoXDTQwMDUyNjAwMDAwMFowOTELMAkG\nA1UEBhMCVVMxDzANBgNVBAoTBkFtYXpvbjEZMBcGA1UEAxMQQW1hem9uIFJvb3Qg\nQ0EgNDB2MBAGByqGSM49AgEGBSuBBAAiA2IABNKrijdPo1MN/sGKe0uoe0ZLY7Bi\n9i0b2whxIdIA6GO9mif78DluXeo9pcmBqqNbIJhFXRbb/egQbeOc4OO9X4Ri83Bk\nM6DLJC9wuoihKqB1+IGuYgbEgds5bimwHvouXKNCMEAwDwYDVR0TAQH/BAUwAwEB\n/zAOBgNVHQ8BAf8EBAMCAYYwHQYDVR0OBBYEFNPsxzplbszh2naaVvuc84ZtV+WB\nMAoGCCqGSM49BAMDA2gAMGUCMDqLIfG9fhGt0O9Yli/W651+kI0rz2ZVwyzjKKlw\nCkcO8DdZEv8tmZQoTipPNU0zWgIxAOp1AE47xDqUEpHJWEadIRNyp4iciuRMStuW\n1KyLa2tJElMzrdfkviT8tQp21KW8EA==\n-----END CERTIFICATE-----\n";

fn sample_csr() -> CertReq {
    let cert = x509_cert::Certificate::from_pem(LEAF_PEM).unwrap();
    CertReq {
        info: CertReqInfo {
            version: Default::default(),
            subject: cert.tbs_certificate().subject().clone(),
            public_key: cert.tbs_certificate().subject_public_key_info().clone(),
            attributes: Default::default(),
        },
        algorithm: cert.signature_algorithm().clone(),
        signature: cert.signature().clone(),
    }
}

fn embedded_body(texts: &[&str]) -> Vec<u8> {
    shaped_body("signedCertificateEmbeddedSct", texts)
}

fn shaped_body(discriminant: &str, texts: &[&str]) -> Vec<u8> {
    let mut items = String::new();
    for (i, t) in texts.iter().enumerate() {
        if i > 0 {
            items.push(',');
        }
        items.push('"');
        items.push_str(&t.replace('\n', "\\n"));
        items.push('"');
    }
    format!(
        "{{\"{}\":{{\"chain\":{{\"certificates\":[{}]}}}}}}",
        discriminant, items
    )
    .into_bytes()
}

#[test]
fn request_envelope_round_trip() {
    let csr = sample_csr();
    let expected_pem = csr.to_pem(pkcs8::LineEnding::CRLF).unwrap().into_bytes();
    let req = CreateSigningCertificateRequest {
        certificate_signing_request: csr,
    };
    let body = req.to_json_bytes().unwrap();
    let text = String::from_utf8(body.clone()).unwrap();
    assert!(text.starts_with("{\"certificateSigningRequest\":\""));
    assert!(text.ends_with("\"}"));
    let decoded = decode_signing_request(&body).unwrap();
    assert_eq!(decoded, expected_pem);
}

#[test]
fn request_pem_uses_crlf_line_endings() {
    let csr = sample_csr();
    let req = CreateSigningCertificateRequest {
        certificate_signing_request: csr,
    };
    let body = req.to_json_bytes().unwrap();
    let pem = decode_signing_request(&body).unwrap();
    let text = String::from_utf8(pem).unwrap();
    assert!(text.contains("\r\n"));
    assert!(text.starts_with("-----BEGIN CERTIFICATE REQUEST-----"));
}

#[test]
fn decode_request_envelope_known_payload() {
    let body = b"{\"certificateSigningRequest\":\"aGVsbG8=\"}";
    let decoded = decode_signing_request(body).unwrap();
    assert_eq!(decoded, b"hello".to_vec());
}

#[test]
fn decode_request_envelope_rejects_other_member() {
    let body = b"{\"somethingElse\":\"aGVsbG8=\"}";
    assert_eq!(
        decode_signing_request(body),
        Err(FulcioError::RequestEncoding)
    );
}

#[test]
fn embedded_two_cert_chain_materializes() {
    let body = embedded_body(&[LEAF_PEM, INTERMEDIATE_PEM]);
    let sc = SigningCertificate::from_json_bytes(&body).unwrap();
    match &sc {
        SigningCertificate::SignedCertificateEmbeddedSct(e) => {
            assert_eq!(e.chain.certificates.len(), 2);
            assert_eq!(e.chain.certificates[0].tag, b"CERTIFICATE".to_vec());
        }
        SigningCertificate::SignedCertificateDetachedSct(_) => {
            panic!("wrong shape");
        }
    }
    let resp = CertificateResponse::from_signing_certificate(&sc).unwrap();
    let leaf_der = pem::parse(LEAF_PEM).unwrap().into_contents();
    let intermediate_der = pem::parse(INTERMEDIATE_PEM).unwrap().into_contents();
    assert_eq!(resp.cert.to_der().unwrap(), leaf_der);
    assert_eq!(resp.chain.len(), 1);
    assert_eq!(resp.chain[0].to_der().unwrap(), intermediate_der);
}

#[test]
fn detached_shape_decodes() {
    let body = shaped_body("signedCertificateDetachedSct", &[LEAF_PEM]);
    let sc = SigningCertificate::from_json_bytes(&body).unwrap();
    match &sc {
        SigningCertificate::SignedCertificateDetachedSct(d) => {
            assert_eq!(d.chain.certificates.len(), 1);
        }
        SigningCertificate::SignedCertificateEmbeddedSct(_) => {
            panic!("wrong shape");
        }
    }
}

#[test]
fn empty_chain_is_response_shape_error() {
    let body = embedded_body(&[]);
    assert!(matches!(
        SigningCertificate::from_json_bytes(&body),
        Err(FulcioError::ResponseShape)
    ));
}

#[test]
fn unknown_discriminant_is_response_shape_error() {
    let body = shaped_body("signedCertificateFancySct", &[LEAF_PEM]);
    assert!(matches!(
        SigningCertificate::from_json_bytes(&body),
        Err(FulcioError::ResponseShape)
    ));
}

#[test]
fn malformed_pem_entry_fails_whole_decode() {
    let body = embedded_body(&[LEAF_PEM, "this is not a pem block"]);
    assert!(matches!(
        SigningCertificate::from_json_bytes(&body),
        Err(FulcioError::CertificateParse)
    ));
}

#[test]
fn unknown_members_are_skipped() {
    let body = format!(
        "{{\"signedCertificateEmbeddedSct\":{{\"other\":[1,2,{{\"x\":null}}],\"chain\":{{\"certificates\":[\"{}\"],\"extra\":true}},\"sct\":\"abc\"}}}}",
        LEAF_PEM.replace('\n', "\\n")
    )
    .into_bytes();
    let sc = SigningCertificate::from_json_bytes(&body).unwrap();
    match &sc {
        SigningCertificate::SignedCertificateEmbeddedSct(e) => {
            assert_eq!(e.chain.certificates.len(), 1);
        }
        SigningCertificate::SignedCertificateDetachedSct(_) => {
            panic!("wrong shape");
        }
    }
}

#[test]
fn whitespace_is_tolerated() {
    let body = format!(
        " {{ \"signedCertificateEmbeddedSct\" : {{ \"chain\" : {{ \"certificates\" : [ \"{}\" ] }} }} }} ",
        LEAF_PEM.replace('\n', "\\n")
    )
    .into_bytes();
    assert!(SigningCertificate::from_json_bytes(&body).is_ok());
}

#[test]
fn top_level_second_member_rejected() {
    let body = format!(
        "{{\"signedCertificateEmbeddedSct\":{{\"chain\":{{\"certificates\":[\"{}\"]}}}},\"more\":1}}",
        LEAF_PEM.replace('\n', "\\n")
    )
    .into_bytes();
    assert!(matches!(
        SigningCertificate::from_json_bytes(&body),
        Err(FulcioError::ResponseShape)
    ));
}

#[test]
fn materialize_empty_chain_rejected() {
    let sc = SigningCertificate::SignedCertificateEmbeddedSct(SigningCertificateEmbeddedSCT {
        chain: CertificateChain {
            certificates: Vec::new(),
        },
    });
    assert!(matches!(
        CertificateResponse::from_signing_certificate(&sc),
        Err(FulcioError::ResponseShape)
    ));
}

#[test]
fn materialize_garbage_contents_fails() {
    let sc = SigningCertificate::SignedCertificateEmbeddedSct(SigningCertificateEmbeddedSCT {
        chain: CertificateChain {
            certificates: vec![fulcio::PemBlock {
                tag: b"CERTIFICATE".to_vec(),
                contents: b"garbage".to_vec(),
            }],
        },
    });
    assert!(matches!(
        CertificateResponse::from_signing_certificate(&sc),
        Err(FulcioError::CertificateParse)
    ));
}

#[test]
fn sct_version_zero_decodes_v1() {
    assert_eq!(decode_sct_version(b"{\"version\": 0}"), Ok(SCTVersion::V1));
    assert_eq!(decode_sct_version(b"{\"version\":0}"), Ok(SCTVersion::V1));
}

#[test]
fn sct_version_nonzero_is_unknown() {
    assert_eq!(
        decode_sct_version(b"{\"version\": 1}"),
        Err(FulcioError::UnknownSctVersion)
    );
    assert_eq!(
        decode_sct_version(b"{\"version\": 7}"),
        Err(FulcioError::UnknownSctVersion)
    );
    assert_eq!(
        decode_sct_version(b"{\"version\": -1}"),
        Err(FulcioError::UnknownSctVersion)
    );
}

#[test]
fn sct_version_bad_shapes_rejected() {
    assert_eq!(
        decode_sct_version(b"{\"version\": \"0\"}"),
        Err(FulcioError::ResponseShape)
    );
    assert_eq!(
        decode_sct_version(b"{\"version\": 0.5}"),
        Err(FulcioError::ResponseShape)
    );
    assert_eq!(
        decode_sct_version(b"{}"),
        Err(FulcioError::ResponseShape)
    );
    assert_eq!(
        decode_sct_version(b"[0]"),
        Err(FulcioError::ResponseShape)
    );
}

#[test]
fn sct_version_from_wire_values() {
    assert_eq!(SCTVersion::from_wire(0), Ok(SCTVersion::V1));
    assert_eq!(
        SCTVersion::from_wire(1),
        Err(FulcioError::UnknownSctVersion)
    );
    assert_eq!(
        SCTVersion::from_wire(u64::MAX),
        Err(FulcioError::UnknownSctVersion)
    );
}

#[test]
fn unicode_escapes_decode_in_strings() {
    let escaped_leaf = LEAF_PEM.replace('\n', "\\n").replace('-', "\\u002d");
    let body = format!(
        "{{\"signedCertificateEmbeddedSct\":{{\"chain\":{{\"certificates\":[\"{}\"]}}}}}}",
        escaped_leaf
    )
    .into_bytes();
    let sc = SigningCertificate::from_json_bytes(&body).unwrap();
    let resp = CertificateResponse::from_signing_certificate(&sc).unwrap();
    let leaf_der = pem::parse(LEAF_PEM).unwrap().into_contents();
    assert_eq!(resp.cert.to_der().unwrap(), leaf_der);
}

#[test]
fn unicode_escape_feeds_request_payload() {
    let body = b"{\"certificateSigningRequest\":\"\\u0061GVsbG8=\"}";
    let decoded = decode_signing_request(body).unwrap();
    assert_eq!(decoded, b"hello".to_vec());
}

#[test]
fn surrogate_pair_in_skipped_member_accepted() {
    let body = format!(
        "{{\"signedCertificateEmbeddedSct\":{{\"note\":\"\\ud83d\\ude00\",\"chain\":{{\"certificates\":[\"{}\"]}}}}}}",
        LEAF_PEM.replace('\n', "\\n")
    )
    .into_bytes();
    assert!(SigningCertificate::from_json_bytes(&body).is_ok());
}

#[test]
fn unpaired_surrogate_rejected() {
    let body = format!(
        "{{\"signedCertificateEmbeddedSct\":{{\"note\":\"\\ud800x\",\"chain\":{{\"certificates\":[\"{}\"]}}}}}}",
        LEAF_PEM.replace('\n', "\\n")
    )
    .into_bytes();
    assert!(matches!(
        SigningCertificate::from_json_bytes(&body),
        Err(FulcioError::ResponseShape)
    ));
}
