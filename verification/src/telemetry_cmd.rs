//! The `telemetry` command. Telemetry has been removed from this build: the
//! subcommands stay so that existing scripts keep working, and they only
//! report, turn consent off, or forget local data.

use vstd::prelude::*;

verus! {

/// The subcommands of `telemetry`.
#[derive(Debug, Clone, Copy, PartialEq, Eq)]
pub enum TelemetrySubcommand {
    Status,
    Enable,
    Disable,
    Forget,
}

/// Telemetry settings as the configuration holds them.
#[derive(Debug, Clone)]
pub struct TelemetrySettings {
    pub consent_given: Option<bool>,
    pub consent_date: Option<String>,
    pub enabled: bool,
}

/// One thing that running a subcommand does, in order.
#[derive(Debug, Clone, PartialEq, Eq)]
pub enum TelemetryStep {
    /// Record that consent is not given; when `required`, a failure to record
    /// it fails the command, else it is ignored.
    SaveConsentOff { required: bool },
    /// Print the status report (see `status_report`) for the current settings.
    ShowStatus,
    /// Delete the local telemetry salt and marker files and the local
    /// tracking database.
    PurgeLocalData,
    /// Print this line.
    Print(String),
}

/// A `TelemetryStep` as a value.
pub enum StepView {
    SaveConsentOff { required: bool },
    ShowStatus,
    PurgeLocalData,
    Print(Seq<char>),
}

impl View for TelemetryStep {
    type V = StepView;

    open spec fn view(&self) -> StepView {
        match self {
            TelemetryStep::SaveConsentOff { required } => StepView::SaveConsentOff { required: *required },
            TelemetryStep::ShowStatus => StepView::ShowStatus,
            TelemetryStep::PurgeLocalData => StepView::PurgeLocalData,
            TelemetryStep::Print(line) => StepView::Print(line@),
        }
    }
}

/// The steps of each subcommand.
pub open spec fn telemetry_plan(command: TelemetrySubcommand) -> Seq<StepView> {
    match command {
        TelemetrySubcommand::Status => seq![StepView::ShowStatus],
        TelemetrySubcommand::Enable => seq![
            StepView::SaveConsentOff { required: false },
            StepView::Print("Telemetry is not available in this build. Nothing was enabled."@),
            StepView::Print("All command analytics stay local — see `nexus gain`."@),
        ],
        TelemetrySubcommand::Disable => seq![
            StepView::SaveConsentOff { required: true },
            StepView::Print("Telemetry disabled."@),
        ],
        TelemetrySubcommand::Forget => seq![
            StepView::SaveConsentOff { required: false },
            StepView::PurgeLocalData,
            StepView::Print("All local telemetry and tracking data deleted."@),
            StepView::Print("(No remote endpoint exists in this build — nothing was ever sent.)"@),
        ],
    }
}

/// The views of a sequence of steps.
pub open spec fn step_views(steps: Seq<TelemetryStep>) -> Seq<StepView> {
    steps.map_values(|s: TelemetryStep| s@)
}

fn print_step(line: &str) -> (step: TelemetryStep)
    ensures
        step@ == StepView::Print(line@),
{
    let mut text = String::new();
    text.append(line);
    TelemetryStep::Print(text)
}

/// What running `command` does, step by step. No subcommand sends anything:
/// `enable` turns consent off and says that nothing was enabled.
pub fn run(command: &TelemetrySubcommand) -> (steps: Vec<TelemetryStep>)
    ensures
        step_views(steps@) == telemetry_plan(*command),
{
    let mut steps: Vec<TelemetryStep> = Vec::new();
    match command {
        TelemetrySubcommand::Status => {
            steps.push(TelemetryStep::ShowStatus);
        },
        TelemetrySubcommand::Enable => {
            steps.push(TelemetryStep::SaveConsentOff { required: false });
            steps.push(print_step("Telemetry is not available in this build. Nothing was enabled."));
            steps.push(print_step("All command analytics stay local — see `nexus gain`."));
        },
        TelemetrySubcommand::Disable => {
            steps.push(TelemetryStep::SaveConsentOff { required: true });
            steps.push(print_step("Telemetry disabled."));
        },
        TelemetrySubcommand::Forget => {
            steps.push(TelemetryStep::SaveConsentOff { required: false });
            steps.push(TelemetryStep::PurgeLocalData);
            steps.push(print_step("All local telemetry and tracking data deleted."));
            steps.push(print_step("(No remote endpoint exists in this build — nothing was ever sent.)"));
        },
    }
    assert(step_views(steps@) =~= telemetry_plan(*command));
    steps
}

/// How the report shows the consent setting.
pub open spec fn consent_text(consent_given: Option<bool>) -> Seq<char> {
    match consent_given {
        Some(true) => "yes"@,
        Some(false) => "no"@,
        None => "never asked"@,
    }
}

/// How the report shows a yes/no setting.
pub open spec fn yes_no(b: bool) -> Seq<char> {
    if b {
        "yes"@
    } else {
        "no"@
    }
}

/// The lines of the status report: consent, its date when there is one,
/// whether telemetry is enabled, whether the environment blocks it, and a
/// note that nothing is collected.
pub open spec fn status_lines(
    consent_given: Option<bool>,
    consent_date: Option<Seq<char>>,
    enabled: bool,
    env_override: bool,
) -> Seq<Seq<char>> {
    seq!["Telemetry status:"@, "  consent:       "@ + consent_text(consent_given)]
        + match consent_date {
        Some(date) => seq!["  consent date:  "@ + date],
        None => seq![],
    } + seq!["  enabled:       "@ + yes_no(enabled)] + if env_override {
        seq!["  env override:  blocked"@]
    } else {
        seq![]
    } + seq![
        ""@,
        "Telemetry has been removed from this build. No data is collected"@,
        "or transmitted from your machine. All command analytics stay local"@,
        "and are visible via `nexus gain`."@,
    ]
}

/// The views of a sequence of strings.
pub open spec fn string_views(lines: Seq<String>) -> Seq<Seq<char>> {
    lines.map_values(|l: String| l@)
}

fn line_of(parts_a: &str, parts_b: &str) -> (line: String)
    ensures
        line@ == parts_a@ + parts_b@,
{
    let mut line = String::new();
    line.append(parts_a);
    line.append(parts_b);
    line
}

/// The status report for `settings`, one string per printed line;
/// `env_override` is whether the environment blocks telemetry.
pub fn status_report(settings: &TelemetrySettings, env_override: bool) -> (lines: Vec<String>)
    ensures
        string_views(lines@) == status_lines(
            settings.consent_given,
            match settings.consent_date {
                Some(d) => Some(d@),
                None => None,
            },
            settings.enabled,
            env_override,
        ),
{
    let mut lines: Vec<String> = Vec::new();
    lines.push(line_of("Telemetry status:", ""));
    let consent = match settings.consent_given {
        Some(true) => "yes",
        Some(false) => "no",
        None => "never asked",
    };
    lines.push(line_of("  consent:       ", consent));
    match &settings.consent_date {
        Some(date) => {
            lines.push(line_of("  consent date:  ", date.as_str()));
        },
        None => {},
    }
    lines.push(line_of("  enabled:       ", if settings.enabled { "yes" } else { "no" }));
    if env_override {
        lines.push(line_of("  env override:  blocked", ""));
    }
    lines.push(line_of("", ""));
    lines.push(line_of("Telemetry has been removed from this build. No data is collected", ""));
    lines.push(line_of("or transmitted from your machine. All command analytics stay local", ""));
    lines.push(line_of("and are visible via `nexus gain`.", ""));
    proof {
        reveal_strlit("");
    }
    assert(string_views(lines@) =~= status_lines(
        settings.consent_given,
        match settings.consent_date {
            Some(d) => Some(d@),
            None => None,
        },
        settings.enabled,
        env_override,
    ));
    lines
}

/// Whether the value of the telemetry-disabling environment variable blocks
/// telemetry: it does when it is exactly `1`.
pub fn env_override_active(value: &str) -> (res: bool)
    ensures
        res == (value@ == "1"@),
{
    crate::text::str_eq(value, "1")
}


/// What each subcommand may do: only `forget` deletes local data; only
/// `disable` fails when consent cannot be recorded; only `status` shows the
/// report; every other subcommand starts by recording that consent is not
/// given, and no subcommand records consent as given. `enable` enables
/// nothing and says so.
pub proof fn lemma_telemetry_plan_roles(c: TelemetrySubcommand)
    ensures
        telemetry_plan(c).contains(StepView::PurgeLocalData) <==> c == TelemetrySubcommand::Forget,
        telemetry_plan(c).contains(StepView::SaveConsentOff { required: true }) <==> c
            == TelemetrySubcommand::Disable,
        telemetry_plan(c).contains(StepView::ShowStatus) <==> c == TelemetrySubcommand::Status,
        c != TelemetrySubcommand::Status ==> telemetry_plan(c)[0] == (StepView::SaveConsentOff {
            required: c == TelemetrySubcommand::Disable,
        }),
        c == TelemetrySubcommand::Enable ==> telemetry_plan(c).contains(
            StepView::Print("Telemetry is not available in this build. Nothing was enabled."@),
        ),
{
    let p = telemetry_plan(c);
    match c {
        TelemetrySubcommand::Status => {
            assert(p[0] == StepView::ShowStatus);
        },
        TelemetrySubcommand::Enable => {
            assert(p[1] == StepView::Print("Telemetry is not available in this build. Nothing was enabled."@));
        },
        TelemetrySubcommand::Disable => {
            assert(p[0] == StepView::SaveConsentOff { required: true });
        },
        TelemetrySubcommand::Forget => {
            assert(p[1] == StepView::PurgeLocalData);
        },
    }
}

/// The status report shows the settings it is given: the consent line says
/// `yes` exactly for given consent, `no` exactly for refused consent and
/// `never asked` exactly when consent was never asked; a date line follows
/// exactly when there is a date; the enabled line says `yes` exactly when
/// telemetry is enabled; and the override line appears exactly when the
/// environment blocks telemetry.
pub proof fn lemma_status_lines_report_settings(
    consent_given: Option<bool>,
    consent_date: Option<Seq<char>>,
    enabled: bool,
    env_override: bool,
)
    ensures
        ({
            let l = status_lines(consent_given, consent_date, enabled, env_override);
            let e: int = if consent_date is Some { 3 } else { 2 };
            &&& l.len() == e + 1 + (if env_override { 1int } else { 0 }) + 4
            &&& l[0] == "Telemetry status:"@
            &&& (l[1] == "  consent:       yes"@) <==> consent_given == Some(true)
            &&& (l[1] == "  consent:       no"@) <==> consent_given == Some(false)
            &&& (l[1] == "  consent:       never asked"@) <==> consent_given is None
            &&& consent_date is Some ==> l[2] == "  consent date:  "@ + consent_date.unwrap()
            &&& (l[e] == "  enabled:       yes"@) <==> enabled
            &&& (l[e] == "  enabled:       no"@) <==> !enabled
            &&& (l[e + 1] == "  env override:  blocked"@) <==> env_override
        }),
{
    reveal_strlit("  consent:       ");
    reveal_strlit("  consent:       yes");
    reveal_strlit("  consent:       no");
    reveal_strlit("  consent:       never asked");
    reveal_strlit("yes");
    reveal_strlit("no");
    reveal_strlit("never asked");
    reveal_strlit("  enabled:       ");
    reveal_strlit("  enabled:       yes");
    reveal_strlit("  enabled:       no");
    reveal_strlit("  env override:  blocked");
    reveal_strlit("");
    let l = status_lines(consent_given, consent_date, enabled, env_override);
    let e: int = if consent_date is Some { 3 } else { 2 };
    assert("  consent:       "@ + "yes"@ =~= "  consent:       yes"@);
    assert("  consent:       "@ + "no"@ =~= "  consent:       no"@);
    assert("  consent:       "@ + "never asked"@ =~= "  consent:       never asked"@);
    assert("  enabled:       "@ + "yes"@ =~= "  enabled:       yes"@);
    assert("  enabled:       "@ + "no"@ =~= "  enabled:       no"@);
    assert("  consent:       yes"@.len() != "  consent:       no"@.len());
    assert("  consent:       yes"@.len() != "  consent:       never asked"@.len());
    assert("  consent:       no"@.len() != "  consent:       never asked"@.len());
    assert("  enabled:       yes"@.len() != "  enabled:       no"@.len());
    assert(""@.len() != "  env override:  blocked"@.len());
    assert(l[1] == "  consent:       "@ + consent_text(consent_given));
    assert(l[e] == "  enabled:       "@ + yes_no(enabled));
    if env_override {
        assert(l[e + 1] == "  env override:  blocked"@);
    } else {
        assert(l[e + 1] == ""@);
    }
}

} // verus!
