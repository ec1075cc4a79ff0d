use fux::cli::{parse_invocation, same_text, Invocation};

fn parse(words: &[&str]) -> Result<Invocation, String> {
    let args: Vec<String> = words.iter().map(|w| w.to_string()).collect();
    parse_invocation(&args)
}

#[test]
fn no_arguments_and_help_words_ask_for_the_usage() {
    assert_eq!(parse(&[]), Ok(Invocation::Help));
    assert_eq!(parse(&["help"]), Ok(Invocation::Help));
    assert_eq!(parse(&["--help"]), Ok(Invocation::Help));
    assert_eq!(parse(&["-h", "ignored"]), Ok(Invocation::Help));
}

#[test]
fn server_options_come_in_pairs_and_the_last_counts() {
    assert_eq!(
        parse(&["server"]),
        Ok(Invocation::Server {
            socket: None,
            config: "fux.json".into()
        })
    );
    assert_eq!(
        parse(&["server", "--socket", "/a", "--config", "c.json", "--socket", "/b"]),
        Ok(Invocation::Server {
            socket: Some("/b".into()),
            config: "c.json".into()
        })
    );
}

#[test]
fn server_options_are_refused_with_their_reason() {
    assert_eq!(
        parse(&["server", "--port", "80"]),
        Err("--port was removed: fux serves only on a Unix domain socket; use --socket PATH".into())
    );
    assert_eq!(
        parse(&["server", "--socket", "/a", "--address"]),
        Err(
            "--address was removed: fux serves only on a Unix domain socket; use --socket PATH"
                .into()
        )
    );
    assert_eq!(
        parse(&["server", "--config"]),
        Err("missing value for --config".into())
    );
    assert_eq!(
        parse(&["server", "--verbose", "yes"]),
        Err("unknown server option --verbose".into())
    );
}

#[test]
fn client_modes_take_their_arguments() {
    assert_eq!(
        parse(&["attach"]),
        Ok(Invocation::Attach { workspace: None })
    );
    assert_eq!(
        parse(&["attach", "main", "extra"]),
        Ok(Invocation::Attach {
            workspace: Some("main".into())
        })
    );
    assert_eq!(
        parse(&["rpc", "world.query", "{\"a\":1}"]),
        Ok(Invocation::Rpc {
            method: "world.query".into(),
            params: Some("{\"a\":1}".into())
        })
    );
    assert_eq!(
        parse(&["rpc", "world.list"]),
        Ok(Invocation::Rpc {
            method: "world.list".into(),
            params: None
        })
    );
    assert_eq!(parse(&["rpc"]), Err("rpc requires METHOD [JSON]".into()));
    assert_eq!(parse(&["stop"]), Ok(Invocation::Stop));
    assert_eq!(
        parse(&["list"]),
        Err("expected server, attach, rpc, stop or help".into())
    );
    assert!(same_text("界x", "界x") && !same_text("a", "ab") && !same_text("ab", "ac"));
}

#[test]
fn rpc_parameters_that_are_not_json_are_refused_with_the_parser_message() {
    let expected = serde_json::from_str::<serde_json::Value>("{\"a\":")
        .unwrap_err()
        .to_string();
    assert_eq!(parse(&["rpc", "world.query", "{\"a\":"]), Err(expected));
    assert!(parse(&["rpc", "world.query", "not json"]).is_err());
    assert_eq!(
        parse(&["rpc", "world.query", "[1, 2]"]),
        Ok(Invocation::Rpc {
            method: "world.query".into(),
            params: Some("[1, 2]".into())
        })
    );
}
