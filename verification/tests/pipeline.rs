use linfa::{
    Blueprint, BlueprintGenerator, Config, Fit, IncrementalFit, OnlineOptimizer, ScalingError,
    StandardScaler, Transformer,
};

/// A transformer written against the traits alone.
struct Doubler;

impl Transformer<Vec<i32>, Vec<i128>> for Doubler {
    type Error = ScalingError;

    fn transform(&self, inputs: &Vec<i32>) -> Result<Vec<i128>, ScalingError> {
        Ok(inputs.iter().map(|&x| 2 * x as i128).collect())
    }
}

#[derive(Clone, Debug, PartialEq)]
struct Plan {
    label: u8,
}

impl Blueprint<Vec<i32>, Vec<i128>> for Plan {
    type Transformer = Doubler;
}

fn run<T>(transformer: &T, inputs: &Vec<i32>) -> Option<Vec<i128>>
where
    T: Transformer<Vec<i32>, Vec<i128>>,
{
    transformer.transform(inputs).ok()
}

#[test]
fn pipeline_fit_then_transform() {
    let mut optimizer = OnlineOptimizer::default();
    let inputs = vec![2, 4, 4, 4, 5, 5, 7, 9];
    let targets: Vec<i128> = Vec::new();
    let scaler: StandardScaler =
        Fit::fit(&mut optimizer, &inputs, &targets, Config::default()).unwrap();
    assert_eq!(optimizer.n_samples, 8);
    let direct = OnlineOptimizer::default().fit(&inputs, Config::default()).unwrap();
    assert_eq!(scaler, direct);
    let scores = Transformer::transform(&scaler, &inputs).unwrap();
    assert_eq!(
        scores,
        vec![
            -394943597175543,
            -131647865725181,
            -131647865725181,
            -131647865725181,
            0,
            0,
            263295731450362,
            526591462900724
        ]
    );
    assert_eq!(run(&scaler, &inputs), Some(scores));
}

#[test]
fn pipeline_incremental_fit() {
    let mut optimizer = OnlineOptimizer::default();
    let targets: Vec<i128> = Vec::new();
    let first = Fit::fit(&mut optimizer, &vec![2, 4, 4, 4, 5, 5, 7, 9], &targets, Config::default())
        .unwrap();
    let second =
        IncrementalFit::incremental_fit(&mut optimizer, &vec![1, 3], &targets, first).unwrap();
    assert_eq!(optimizer.n_samples, 10);
    let whole = OnlineOptimizer::default()
        .fit(&vec![2, 4, 4, 4, 5, 5, 7, 9, 1, 3], Config::default())
        .unwrap();
    assert_eq!(second, whole);
    let same = IncrementalFit::incremental_fit(&mut optimizer, &Vec::new(), &targets, second);
    assert_eq!(same, Ok(second));
    assert_eq!(optimizer.n_samples, 10);
}

#[test]
fn pipeline_errors() {
    let mut optimizer = OnlineOptimizer::default();
    let targets: Vec<i128> = Vec::new();
    assert_eq!(
        Fit::fit(&mut optimizer, &Vec::new(), &targets, Config::default()),
        Err(ScalingError::EmptyInput)
    );
    assert_eq!(optimizer.n_samples, 0);
    let flat = Fit::fit(&mut optimizer, &vec![3, 3], &targets, Config::default()).unwrap();
    assert_eq!(Transformer::transform(&flat, &vec![3]), Err(ScalingError::DegenerateScale));
    assert_eq!(
        IncrementalFit::incremental_fit(&mut optimizer, &vec![4], &targets, flat),
        Err(ScalingError::DegenerateScale)
    );
    assert_eq!(optimizer.n_samples, 2);
}

#[test]
fn blueprint_generates_itself_once() {
    let generated = Config { ddof: 0 }.generate().unwrap();
    assert_eq!(generated, vec![Config { ddof: 0 }]);
    let generated = Plan { label: 7 }.generate().unwrap();
    assert_eq!(generated, vec![Plan { label: 7 }]);
}

#[test]
fn traits_can_be_implemented_elsewhere() {
    assert_eq!(run(&Doubler, &vec![1, -2]), Some(vec![2, -4]));
}
