use link_replication::args::{
    Args,
    ArgsError,
    Bootstrap,
    KeyArgs,
    KeyFormat,
    KeySource,
    LnkHome,
    MetricsArgs,
    MetricsProvider,
    Signer,
    TrackingArgs,
    TrackingMode,
};
use link_replication::ids::{PeerId, Urn};

#[test]
fn defaults() -> Result<(), ArgsError> {
    let iter = vec!["linkd", "--protocol-listen", "localhost"];
    let parsed = Args::from_iter_safe(iter)?;

    assert!(matches!(
        parsed,
        Args {
            lnk_home: LnkHome::ProjectDirs,
            ..
        }
    ));
    assert_eq!(
        parsed,
        Args {
            ..Default::default()
        }
    );

    Ok(())
}

#[test]
fn bootstraps() -> Result<(), ArgsError> {
    let bootstraps = vec![
        Bootstrap {
            addr: "sprout.radicle.xyz:12345".to_string(),
            peer_id: PeerId::parse("hynkyndc6w3p8urucakobzna7sxwgcqny7xxtw88dtx3pkf7m3nrzc").unwrap(),
        },
        Bootstrap {
            addr: "setzling.radicle.xyz:12345".to_string(),
            peer_id: PeerId::parse("hybz9gfgtd9d4pd14a6r66j5hz6f77fed4jdu7pana4fxaxbt369kg").unwrap(),
        },
    ];

    let iter = vec![
        "linkd",
        "--protocol-listen",
        "localhost",
        "--bootstrap",
        "hynkyndc6w3p8urucakobzna7sxwgcqny7xxtw88dtx3pkf7m3nrzc@sprout.radicle.xyz:12345",
        "--bootstrap",
        "hybz9gfgtd9d4pd14a6r66j5hz6f77fed4jdu7pana4fxaxbt369kg@setzling.radicle.xyz:12345",
    ];
    let parsed = Args::from_iter_safe(iter)?;

    assert_eq!(
        parsed,
        Args {
            bootstraps,
            ..Default::default()
        }
    );

    Ok(())
}

#[test]
fn metrics_graphite() -> Result<(), ArgsError> {
    let iter = vec![
        "linkd",
        "--protocol-listen",
        "localhost",
        "--metrics-provider",
        "graphite",
        "--graphite-addr",
        "graphite:9108",
    ];
    let parsed = Args::from_iter_safe(iter)?;

    assert_eq!(
        parsed,
        Args {
            metrics: MetricsArgs {
                provider: Some(MetricsProvider::Graphite),
                graphite_addr: "graphite:9108".to_string(),
            },
            ..Default::default()
        }
    );

    Ok(())
}

#[test]
fn lnk_home() -> Result<(), ArgsError> {
    let iter = vec!["linkd", "--protocol-listen", "localhost", "--lnk-home", "/tmp/linkd"];
    let parsed = Args::from_iter_safe(iter)?;

    assert_eq!(
        parsed,
        Args {
            lnk_home: LnkHome::Root("/tmp/linkd".to_string()),
            ..Default::default()
        }
    );

    Ok(())
}

#[test]
fn signer_key_file() -> Result<(), ArgsError> {
    let iter = vec![
        "linkd",
        "--protocol-listen",
        "localhost",
        "--signer",
        "key",
        "--key-source",
        "file",
        "--key-file-path",
        "~/.config/radicle/secret.key",
    ];
    let parsed = Args::from_iter_safe(iter)?;
    assert_eq!(
        parsed,
        Args {
            signer: Signer::Key,
            key: KeyArgs {
                source: KeySource::File,
                file_path: Some("~/.config/radicle/secret.key".to_string()),
                ..Default::default()
            },
            ..Default::default()
        }
    );

    let iter = vec![
        "linkd",
        "--protocol-listen",
        "localhost",
        "--signer",
        "key",
        "--key-format",
        "base64",
        "--key-source",
        "file",
        "--key-file-path",
        "~/.config/radicle/secret.seed",
    ];
    let parsed = Args::from_iter_safe(iter)?;
    assert_eq!(
        parsed,
        Args {
            signer: Signer::Key,
            key: KeyArgs {
                format: KeyFormat::Base64,
                source: KeySource::File,
                file_path: Some("~/.config/radicle/secret.seed".to_string()),
            },
            ..Default::default()
        }
    );

    Ok(())
}

#[test]
fn signer_key_ephemeral() -> Result<(), ArgsError> {
    let iter = vec![
        "linkd",
        "--protocol-listen",
        "localhost",
        "--signer",
        "key",
        "--key-source",
        "ephemeral",
    ];
    let parsed = Args::from_iter_safe(iter)?;
    assert_eq!(
        parsed,
        Args {
            signer: Signer::Key,
            key: KeyArgs {
                source: KeySource::Ephemeral,
                ..Default::default()
            },
            ..Default::default()
        }
    );

    let iter = vec![
        "linkd",
        "--protocol-listen",
        "localhost",
        "--signer",
        "key",
        "--key-format",
        "base64",
        "--key-source",
        "file",
        "--key-file-path",
        "~/.config/radicle/secret.seed",
    ];
    let parsed = Args::from_iter_safe(iter)?;
    assert_eq!(
        parsed,
        Args {
            signer: Signer::Key,
            key: KeyArgs {
                format: KeyFormat::Base64,
                source: KeySource::File,
                file_path: Some("~/.config/radicle/secret.seed".to_string()),
            },
            ..Default::default()
        }
    );

    Ok(())
}

#[test]
fn signer_key_stdin() -> Result<(), ArgsError> {
    let iter = vec![
        "linkd",
        "--protocol-listen",
        "localhost",
        "--signer",
        "key",
        "--key-source",
        "stdin",
    ];
    let parsed = Args::from_iter_safe(iter)?;

    assert_eq!(
        parsed,
        Args {
            signer: Signer::Key,
            key: KeyArgs {
                source: KeySource::Stdin,
                ..Default::default()
            },
            ..Default::default()
        }
    );

    Ok(())
}

#[test]
fn signer_ssh_agent() -> Result<(), ArgsError> {
    let iter = vec!["linkd", "--protocol-listen", "localhost", "--signer", "ssh-agent"];
    let parsed = Args::from_iter_safe(iter)?;

    assert_eq!(
        parsed,
        Args {
            signer: Signer::SshAgent,
            ..Default::default()
        }
    );

    Ok(())
}

#[test]
fn tmp_root() -> Result<(), ArgsError> {
    let iter = vec!["linkd", "--protocol-listen", "localhost", "--tmp-root"];
    let parsed = Args::from_iter_safe(iter)?;

    assert_eq!(
        parsed,
        Args {
            tmp_root: true,
            ..Default::default()
        }
    );

    Ok(())
}

#[test]
fn tracking() -> Result<(), ArgsError> {
    let parsed = Args::from_iter_safe(vec![
        "linkd",
        "--protocol-listen",
        "localhost",
        "--track",
        "everything",
    ])?;
    assert_eq!(
        parsed,
        Args {
            tracking: TrackingArgs {
                mode: Some(TrackingMode::Everything),
                ..Default::default()
            },
            ..Default::default()
        }
    );

    let parsed = Args::from_iter_safe(vec![
        "linkd",
        "--protocol-listen",
        "localhost",
        "--track",
        "selected",
        "--track-peer-id",
        "hynkyndc6w3p8urucakobzna7sxwgcqny7xxtw88dtx3pkf7m3nrzc",
        "--track-urn",
        "rad:git:hnrkb39fr6f4jj59nfiq7tfd9aznirdu7b59o",
    ])?;
    assert_eq!(
        parsed,
        Args {
            tracking: TrackingArgs {
                mode: Some(TrackingMode::Selected),
                peer_ids: vec![
                    PeerId::parse("hynkyndc6w3p8urucakobzna7sxwgcqny7xxtw88dtx3pkf7m3nrzc").unwrap()
                ],
                urns: vec![Urn::try_from_id("rad:git:hnrkb39fr6f4jj59nfiq7tfd9aznirdu7b59o").unwrap()],
            },
            ..Default::default()
        }
    );
    Ok(())
}

#[test]
fn unknown_option_is_refused() {
    let r = Args::from_iter_safe(vec!["linkd", "--frobnicate"]);
    assert_eq!(r, Err(ArgsError::UnknownOption("--frobnicate".to_string())));
}

#[test]
fn missing_value_is_refused() {
    let r = Args::from_iter_safe(vec!["linkd", "--signer"]);
    assert_eq!(r, Err(ArgsError::MissingValue("--signer".to_string())));
}

#[test]
fn invalid_value_is_refused() {
    let r = Args::from_iter_safe(vec!["linkd", "--key-source", "carrier-pigeon"]);
    assert_eq!(
        r,
        Err(ArgsError::InvalidValue {
            option: "--key-source".to_string(),
            value: "carrier-pigeon".to_string()
        })
    );
}
