use snarkos_bft::{execution_fees, Execute, ExecuteError, ExecutionFees};

use clap::{Arg, ArgAction, Command};

fn developer_cli() -> Command {
    Command::new("snarkos").subcommand(
        Command::new("developer").subcommand(
            Command::new("execute")
                .arg(Arg::new("program_id").required(true))
                .arg(Arg::new("function").required(true))
                .arg(Arg::new("inputs").num_args(0..).action(ArgAction::Append))
                .arg(Arg::new("private_key").short('p').long("private-key").required(true))
                .arg(Arg::new("query").short('q').long("query").required(true))
                .arg(Arg::new("priority_fee").long("priority-fee"))
                .arg(Arg::new("record").short('r').long("record"))
                .arg(Arg::new("broadcast").short('b').long("broadcast").conflicts_with("dry_run"))
                .arg(Arg::new("dry_run").short('d').long("dry-run").action(ArgAction::SetTrue).conflicts_with("broadcast"))
                .arg(Arg::new("store").long("store")),
        ),
    )
}

fn parse_execute(args: Vec<&str>) -> Option<Execute> {
    let matches = developer_cli().get_matches_from(args);
    let developer = matches.subcommand_matches("developer")?;
    let m = developer.subcommand_matches("execute")?;
    Some(Execute {
        program_id: m.get_one::<String>("program_id")?.clone(),
        function: m.get_one::<String>("function")?.clone(),
        inputs: m.get_many::<String>("inputs").map(|v| v.cloned().collect()).unwrap_or_default(),
        private_key: m.get_one::<String>("private_key")?.clone(),
        query: m.get_one::<String>("query")?.clone(),
        priority_fee: match m.get_one::<String>("priority_fee") {
            Some(s) => Some(s.parse::<u64>().ok()?),
            None => None,
        },
        record: m.get_one::<String>("record").cloned(),
        broadcast: m.get_one::<String>("broadcast").cloned(),
        dry_run: m.get_flag("dry_run"),
        store: m.get_one::<String>("store").cloned(),
    })
}

fn request(dry_run: bool, record: Option<String>, priority_fee: Option<u64>) -> Execute {
    Execute {
        program_id: "hello.aleo".to_string(),
        function: "hello".to_string(),
        inputs: vec!["1u32".to_string(), "2u32".to_string()],
        private_key: "PRIVATE_KEY".to_string(),
        query: "QUERY".to_string(),
        priority_fee,
        record,
        broadcast: None,
        dry_run,
        store: None,
    }
}

#[test]
fn clap_snarkos_execute() {
    let arg_vec = vec![
        "snarkos",
        "developer",
        "execute",
        "--private-key",
        "PRIVATE_KEY",
        "--query",
        "QUERY",
        "--priority-fee",
        "77",
        "--record",
        "RECORD",
        "hello.aleo",
        "hello",
        "1u32",
        "2u32",
    ];
    if let Some(execute) = parse_execute(arg_vec) {
        assert_eq!(execute.private_key, "PRIVATE_KEY");
        assert_eq!(execute.query, "QUERY");
        assert_eq!(execute.priority_fee, Some(77));
        assert_eq!(execute.record, Some("RECORD".into()));
        assert_eq!(execute.program_id, "hello.aleo");
        assert_eq!(execute.function, "hello");
        assert_eq!(execute.inputs, vec!["1u32".to_string(), "2u32".to_string()]);
    } else {
        panic!("Unexpected result of clap parsing!");
    }
}

#[test]
fn execute_without_action_is_refused() {
    let e = request(false, None, None);
    assert_eq!(e.parse(10, &vec![], 1_000), Err(ExecuteError::NoAction));
}

#[test]
fn execute_fees_are_summed() {
    let e = request(true, None, Some(5));
    let fees = e.parse(100, &vec![7, 8], 1_000).unwrap();
    assert_eq!(fees, ExecutionFees { base_fee: 105, finalize_fee: 15, total_fee: 120 });
}

#[test]
fn execute_base_fee_saturates() {
    let fees = execution_fees(u64::MAX - 1, Some(5), &vec![1]).unwrap();
    assert_eq!(fees.base_fee, u64::MAX);
    assert_eq!(fees.total_fee, u64::MAX);
    assert_eq!(fees.finalize_fee, 1);
}

#[test]
fn execute_finalize_overflow_is_refused() {
    assert_eq!(execution_fees(1, None, &vec![u64::MAX, 1]), Err(ExecuteError::FinalizeCostOverflow));
}

#[test]
fn execute_insufficient_public_balance() {
    let e = request(true, None, Some(5));
    assert_eq!(e.parse(100, &vec![], 104), Err(ExecuteError::InsufficientBalance));
    assert!(e.parse(100, &vec![], 105).is_ok());
}

#[test]
fn execute_with_record_ignores_public_balance() {
    let e = request(true, Some("RECORD".to_string()), Some(5));
    assert!(e.parse(100, &vec![], 0).is_ok());
}
