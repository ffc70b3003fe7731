use roguebench_commands::commands::{Command, ValidationError};
use roguebench_commands::validate::{
    all_rejections, first_rejection, FnValidator, Validator, Validators,
};

#[derive(Clone, Debug)]
struct TestCommand {
    value: i32,
}

impl Command for TestCommand {
    type Output = ();
    type Error = ();

    fn name() -> &'static str {
        "test"
    }

    fn to_json(&self) -> Vec<u8> {
        format!("{{\"value\":{}}}", self.value).into_bytes()
    }

    fn from_json(json: &[u8]) -> Option<Self> {
        let v: serde_json::Value = serde_json::from_slice(json).ok()?;
        let value = i32::try_from(v.get("value")?.as_i64()?).ok()?;
        Some(TestCommand { value })
    }
}

struct PositiveValidator;

impl Validator<TestCommand> for PositiveValidator {
    fn validate(&self, command: &TestCommand) -> Result<(), ValidationError> {
        if command.value <= 0 {
            return Err(ValidationError::field("test", "value", "must be positive"));
        }
        Ok(())
    }
}

struct MaxValueValidator {
    max: i32,
}

impl Validator<TestCommand> for MaxValueValidator {
    fn validate(&self, command: &TestCommand) -> Result<(), ValidationError> {
        if command.value > self.max {
            return Err(ValidationError::field(
                "test",
                "value",
                &format!("must be <= {}", self.max),
            ));
        }
        Ok(())
    }
}

#[test]
fn validator_passes() {
    let mut validators: Validators<TestCommand> = Validators::new();
    validators.add(PositiveValidator);

    let cmd = TestCommand { value: 10 };
    assert!(validators.validate(&cmd).is_ok());
}

#[test]
fn validator_fails() {
    let mut validators: Validators<TestCommand> = Validators::new();
    validators.add(PositiveValidator);

    let cmd = TestCommand { value: -5 };
    let result = validators.validate(&cmd);
    assert!(result.is_err());

    let error = result.unwrap_err();
    assert_eq!(error.field, Some("value".to_string()));
}

#[test]
fn multiple_validators() {
    let mut validators: Validators<TestCommand> = Validators::new();
    validators.add(PositiveValidator);
    validators.add(MaxValueValidator { max: 100 });

    // Both pass
    assert!(validators.validate(&TestCommand { value: 50 }).is_ok());

    // First fails
    assert!(validators.validate(&TestCommand { value: -1 }).is_err());

    // Second fails
    assert!(validators.validate(&TestCommand { value: 150 }).is_err());
}

#[test]
fn validate_all_collects_errors() {
    let mut validators: Validators<TestCommand> = Validators::new();
    validators.add(PositiveValidator);
    validators.add(MaxValueValidator { max: 100 });

    // Value that fails both (if we had that case) - but -1 only fails positive
    let errors = validators.validate_all(&TestCommand { value: -1 });
    assert_eq!(errors.len(), 1);

    // Value that passes
    let errors = validators.validate_all(&TestCommand { value: 50 });
    assert!(errors.is_empty());
}

#[test]
fn fn_validator() {
    let mut validators: Validators<TestCommand> = Validators::new();
    validators.add(FnValidator::new(|cmd: &TestCommand| {
        if cmd.value % 2 != 0 {
            return Err(ValidationError::field("test", "value", "must be even"));
        }
        Ok(())
    }));

    assert!(validators.validate(&TestCommand { value: 4 }).is_ok());
    assert!(validators.validate(&TestCommand { value: 3 }).is_err());
}

#[test]
fn positive_then_max_scenario() {
    let mut validators: Validators<TestCommand> = Validators::new();
    validators.add(PositiveValidator);
    validators.add(MaxValueValidator { max: 100 });
    assert_eq!(validators.len(), 2);

    let first = validators.validate(&TestCommand { value: -5 }).unwrap_err();
    assert_eq!(first.reason, "must be positive");

    let over = validators.validate_all(&TestCommand { value: 150 });
    assert_eq!(over.len(), 1);
    assert_eq!(over[0].reason, "must be <= 100");

    let neg = validators.validate_all(&TestCommand { value: -5 });
    assert_eq!(neg.len(), 1);
    assert_eq!(neg[0].reason, "must be positive");

    assert!(validators.validate_all(&TestCommand { value: 50 }).is_empty());
}

#[test]
fn empty_pipeline_accepts() {
    let validators: Validators<TestCommand> = Validators::new();
    assert!(validators.is_empty());
    assert!(validators.validate(&TestCommand { value: -1 }).is_ok());
    assert!(validators.validate_all(&TestCommand { value: -1 }).is_empty());
}

#[test]
fn validate_all_keeps_registration_order() {
    let mut validators: Validators<TestCommand> = Validators::new();
    validators.add(MaxValueValidator { max: -10 });
    validators.add(PositiveValidator);
    let errors = validators.validate_all(&TestCommand { value: 0 });
    let reasons: Vec<String> = errors.iter().map(|e| e.reason.clone()).collect();
    assert_eq!(reasons, vec!["must be <= -10", "must be positive"]);
    let first = validators.validate(&TestCommand { value: 0 }).unwrap_err();
    assert_eq!(first.reason, reasons[0]);
}

#[test]
fn rejection_helpers_on_outcomes() {
    let outcomes = || {
        vec![
            Ok(()),
            Err(ValidationError::new("k", "a")),
            Ok(()),
            Err(ValidationError::new("k", "b")),
        ]
    };
    assert_eq!(first_rejection(outcomes()).unwrap_err().reason, "a");
    let all: Vec<String> = all_rejections(outcomes())
        .into_iter()
        .map(|e| e.reason)
        .collect();
    assert_eq!(all, vec!["a", "b"]);
    assert!(first_rejection(vec![Ok(()), Ok(())]).is_ok());
    assert!(all_rejections(vec![]).is_empty());
}

#[test]
fn register_same_type_validators() {
    let mut validators: Validators<TestCommand, MaxValueValidator> = Validators::new();
    validators.register(MaxValueValidator { max: 10 });
    validators.register(MaxValueValidator { max: 5 });
    let errors = validators.validate_all(&TestCommand { value: 7 });
    assert_eq!(errors.len(), 1);
    assert_eq!(errors[0].reason, "must be <= 5");
    assert!(validators.validate(&TestCommand { value: 3 }).is_ok());
}
