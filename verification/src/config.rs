//! The arguments of the controller.
use crate::node;
use crate::text;
use crate::text::{concat2, parse_uint, text, text_is, with_number};
use vstd::prelude::*;

verus! {

pub const MAX_BENCH_COUNT: usize = 128;

pub const DEFAULT_BENCH_COUNT: usize = 128;

#[derive(Debug, PartialEq, Eq)]
pub struct ControllerConfig {
    pub bench_count: usize,
    pub evidence_path: Option<String>,
}

/// The mathematical content of a [`ControllerConfig`].
#[verifier::ext_equal]
pub struct ControllerModel {
    pub bench_count: usize,
    pub evidence_path: Option<Seq<char>>,
}

impl View for ControllerConfig {
    type V = ControllerModel;

    open spec fn view(&self) -> ControllerModel {
        ControllerModel {
            bench_count: self.bench_count,
            evidence_path: match self.evidence_path {
                Some(path) => Some(path@),
                None => None,
            },
        }
    }
}

/// What holds without an argument.
pub open spec fn default_config() -> ControllerModel {
    ControllerModel { bench_count: DEFAULT_BENCH_COUNT, evidence_path: None }
}

impl Default for ControllerConfig {
    fn default() -> (r: Self)
        ensures
            r@ == default_config(),
    {
        ControllerConfig { bench_count: DEFAULT_BENCH_COUNT, evidence_path: None }
    }
}

/// What the arguments from number `i` on make of a configuration.
pub open spec fn controller_from(args: Seq<Seq<char>>, i: int, c: ControllerModel) -> Result<
    ControllerModel,
    Seq<char>,
>
    decreases args.len() - i,
{
    if i < 0 || i >= args.len() {
        Ok(c)
    } else if args[i] == "--bench-count"@ {
        if i + 1 >= args.len() {
            Err("--bench-count requires an integer"@)
        } else {
            match text::parsed_uint(args[i + 1], usize::MAX as nat) {
                None => Err("invalid --bench-count value: "@ + args[i + 1]),
                Some(value) => if value < 1 || value > MAX_BENCH_COUNT {
                    Err("--bench-count must be between 1 and "@ + text::dec(MAX_BENCH_COUNT as nat))
                } else {
                    controller_from(
                        args,
                        i + 2,
                        ControllerModel { bench_count: value as usize, ..c },
                    )
                },
            }
        }
    } else if args[i] == "--evidence"@ {
        if i + 1 >= args.len() {
            Err("--evidence requires a path"@)
        } else if args[i + 1].len() == 0 {
            Err("--evidence path cannot be empty"@)
        } else {
            controller_from(
                args,
                i + 2,
                ControllerModel { evidence_path: Some(args[i + 1]), ..c },
            )
        }
    } else if args[i] == "--campaign"@ || args[i] == "--full-campaign"@ {
        Err(args[i] + " is NOT IMPLEMENTED; refusing to report unexecuted Phase B gates"@)
    } else {
        Err("unknown argument: "@ + args[i])
    }
}

/// What a list of arguments says.
pub open spec fn controller_result(args: Seq<Seq<char>>) -> Result<ControllerModel, Seq<char>> {
    controller_from(args, 0, default_config())
}

/// The four arguments are told apart.
proof fn lemma_arguments_differ()
    ensures
        "--bench-count"@ != "--evidence"@,
        "--bench-count"@ != "--campaign"@,
        "--bench-count"@ != "--full-campaign"@,
        "--evidence"@ != "--campaign"@,
        "--evidence"@ != "--full-campaign"@,
{
    reveal_strlit("--bench-count");
    reveal_strlit("--evidence");
    reveal_strlit("--campaign");
    reveal_strlit("--full-campaign");
    assert("--bench-count"@[2] == 'b');
    assert("--evidence"@[2] == 'e');
    assert("--campaign"@[2] == 'c');
    assert("--full-campaign"@[2] == 'f');
}

/// Reads the arguments of the controller.
pub fn parse_controller_args(args: &Vec<String>) -> (r: Result<ControllerConfig, String>)
    ensures
        text::shown_view(r) == controller_result(node::texts(args@)),
{
    let mut config: ControllerConfig = ControllerConfig::default();
    let mut index: usize = 0;
    proof {
        lemma_arguments_differ();
    }
    while index < args.len()
        invariant
            index <= args@.len(),
            controller_result(node::texts(args@)) == controller_from(
                node::texts(args@),
                index as int,
                config@,
            ),
            "--bench-count"@ != "--evidence"@,
        decreases args@.len() - index,
    {
        let argument: &str = args[index].as_str();
        if text_is(argument, "--bench-count") {
            if args.len() - index < 2 {
                return Err(text("--bench-count requires an integer"));
            }
            let raw: &str = args[index + 1].as_str();
            let value: u64 = match parse_uint(raw, usize::MAX as u64) {
                Some(value) => value,
                None => {
                    return Err(concat2("invalid --bench-count value: ", raw));
                },
            };
            if value < 1 || value > MAX_BENCH_COUNT as u64 {
                proof {
                    reveal_strlit("");
                    let s = "--bench-count must be between 1 and "@ + text::dec(
                        MAX_BENCH_COUNT as nat,
                    );
                    assert(s + ""@ =~= s);
                }
                return Err(
                    with_number(
                        "--bench-count must be between 1 and ",
                        MAX_BENCH_COUNT as u64,
                        "",
                    ),
                );
            }
            config.bench_count = value as usize;
            index = index + 2;
        } else if text_is(argument, "--evidence") {
            if args.len() - index < 2 {
                return Err(text("--evidence requires a path"));
            }
            let raw: &str = args[index + 1].as_str();
            if raw.unicode_len() == 0 {
                return Err(text("--evidence path cannot be empty"));
            }
            config.evidence_path = Some(text(raw));
            index = index + 2;
        } else if text_is(argument, "--campaign") || text_is(argument, "--full-campaign") {
            return Err(
                concat2(
                    argument,
                    " is NOT IMPLEMENTED; refusing to report unexecuted Phase B gates",
                ),
            );
        } else {
            return Err(concat2("unknown argument: ", argument));
        }
    }
    Ok(config)
}

/// What is accepted is within its bounds, and leads to no empty path.
pub proof fn law_config_is_bounded(args: Seq<Seq<char>>)
    requires
        controller_result(args) is Ok,
    ensures
        1 <= controller_result(args)->Ok_0.bench_count <= MAX_BENCH_COUNT,
        controller_result(args)->Ok_0.evidence_path matches Some(path) ==> path.len() > 0,
{
    lemma_config_is_bounded(args, 0, default_config());
}

proof fn lemma_config_is_bounded(args: Seq<Seq<char>>, i: int, c: ControllerModel)
    requires
        controller_from(args, i, c) is Ok,
        1 <= c.bench_count <= MAX_BENCH_COUNT,
        c.evidence_path matches Some(path) ==> path.len() > 0,
    ensures
        1 <= controller_from(args, i, c)->Ok_0.bench_count <= MAX_BENCH_COUNT,
        controller_from(args, i, c)->Ok_0.evidence_path matches Some(path) ==> path.len() > 0,
    decreases args.len() - i,
{
    if 0 <= i < args.len() {
        if args[i] == "--bench-count"@ {
            let value = text::parsed_uint(args[i + 1], usize::MAX as nat)->Some_0;
            lemma_config_is_bounded(
                args,
                i + 2,
                ControllerModel { bench_count: value as usize, ..c },
            );
        } else if args[i] == "--evidence"@ {
            lemma_config_is_bounded(
                args,
                i + 2,
                ControllerModel { evidence_path: Some(args[i + 1]), ..c },
            );
        }
    }
}

proof fn lemma_more_args(args: Seq<Seq<char>>, more: Seq<Seq<char>>, i: int, c: ControllerModel)
    requires
        0 <= i <= args.len(),
        controller_from(args, i, c) is Ok,
    ensures
        controller_from(args + more, i, c) == controller_from(
            args + more,
            args.len() as int,
            controller_from(args, i, c)->Ok_0,
        ),
    decreases args.len() - i,
{
    let all = args + more;
    if i < args.len() {
        assert(all[i] == args[i]);
        if i + 1 < args.len() {
            assert(all[i + 1] == args[i + 1]);
        }
        if args[i] == "--bench-count"@ {
            let value = text::parsed_uint(args[i + 1], usize::MAX as nat)->Some_0;
            lemma_more_args(
                args,
                more,
                i + 2,
                ControllerModel { bench_count: value as usize, ..c },
            );
        } else {
            lemma_more_args(
                args,
                more,
                i + 2,
                ControllerModel { evidence_path: Some(args[i + 1]), ..c },
            );
        }
    }
}

/// What arguments mean: none ask for 128 transfers and no evidence. A count from one to
/// 128 behind accepted arguments replaces the count before it, a path that is not empty
/// the path, and each leaves the other as it was. Any other count, an empty path, a flag
/// without its value and any other word are refused.
pub proof fn law_arguments(args: Seq<Seq<char>>, n: nat, path: Seq<char>, word: Seq<char>)
    requires
        controller_result(args) is Ok,
        n <= usize::MAX,
    ensures
        ({
            let before = controller_result(args)->Ok_0;
            let counted = controller_result(args + seq!["--bench-count"@, text::dec(n)]);
            let kept = controller_result(args + seq!["--evidence"@, path]);
            &&& controller_result(Seq::empty()) == Ok::<ControllerModel, Seq<char>>(
                ControllerModel { bench_count: 128, evidence_path: None },
            )
            &&& counted is Ok <==> 1 <= n <= 128
            &&& counted matches Ok(c) ==> c.bench_count == n && c.evidence_path
                == before.evidence_path
            &&& kept is Ok <==> path.len() > 0
            &&& kept matches Ok(c) ==> c.bench_count == before.bench_count && c.evidence_path
                == Some(path)
            &&& controller_result(args + seq![word]) is Err
            &&& controller_result(args + seq!["--campaign"@, path]) is Err
        }),
{
    reveal_strlit("--bench-count");
    reveal_strlit("--evidence");
    reveal_strlit("--campaign");
    assert("--bench-count"@.len() != "--evidence"@.len());
    assert("--bench-count"@.len() != "--campaign"@.len());
    assert("--evidence"@[2] != "--campaign"@[2]);
    let before = controller_result(args)->Ok_0;
    let a = seq!["--bench-count"@, text::dec(n)];
    let b = seq!["--evidence"@, path];
    let k = args.len() as int;
    text::law_written_number_is_read_back(n, usize::MAX as nat);
    lemma_more_args(args, a, 0, default_config());
    lemma_more_args(args, b, 0, default_config());
    lemma_more_args(args, seq![word], 0, default_config());
    lemma_more_args(args, seq!["--campaign"@, path], 0, default_config());
    assert((args + a)[k] == a[0] && (args + a)[k + 1] == a[1]);
    assert((args + b)[k] == b[0] && (args + b)[k + 1] == b[1]);
    assert((args + seq![word])[k] == word);
    assert((args + seq!["--campaign"@, path])[k] == "--campaign"@);
    reveal_with_fuel(controller_from, 2);
}

} // verus!
