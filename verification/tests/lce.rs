use voicemeter::connection::managed::{LoadError, LoadingDevices};
use voicemeter::ui::{DynamicLce, Lce, Loadable, LoadableExt};

fn requested() -> (
    oneshot::Sender<Result<i32, LoadError>>,
    LoadingDevices<i32>,
) {
    let (sender, receiver) = oneshot::channel();
    (sender, LoadingDevices::requested(true, receiver))
}

#[test]
fn waiting_at_first() {
    let mut lce: DynamicLce<i32, LoadError> = Default::default();
    assert!(matches!(lce, Lce::Waiting));
    lce.process();
    assert!(matches!(lce, Lce::Waiting));
}

#[test]
fn loading_becomes_content() {
    let (sender, loading) = requested();
    let mut lce: Lce<LoadingDevices<i32>, i32, LoadError> = Lce::Loading(loading);
    lce.process();
    assert!(matches!(lce, Lce::Loading(_)));
    assert!(sender.send(Ok(4)).is_ok());
    lce.process();
    assert!(matches!(lce, Lce::Content(4)));
    lce.process();
    assert!(matches!(lce, Lce::Content(4)));
}

#[test]
fn loading_becomes_an_error() {
    let (sender, loading) = requested();
    let mut lce: Lce<LoadingDevices<i32>, i32, LoadError> = Lce::Loading(loading);
    assert!(sender.send(Err(LoadError::Start("dead".to_string()))).is_ok());
    lce.process();
    assert!(matches!(&lce, Lce::Error(LoadError::Start(message)) if message == "dead"));
    lce.process();
    assert!(matches!(&lce, Lce::Error(LoadError::Start(message)) if message == "dead"));
}

#[test]
fn results_settle() {
    let content: Lce<LoadingDevices<i32>, i32, LoadError> = Lce::settled(Ok(1));
    assert!(matches!(content, Lce::Content(1)));
    let error: Lce<LoadingDevices<i32>, i32, LoadError> =
        Lce::settled(Err(LoadError::ManagerStopped));
    assert!(matches!(error, Lce::Error(LoadError::ManagerStopped)));
}

#[test]
fn results_are_mapped() {
    let (sender, loading) = requested();
    let mut mapped = loading.map_res(|res| match res {
        Ok(number) => Ok(number.to_string()),
        Err(error) => Err(error.to_string().len()),
    });
    assert!(!mapped.ready());
    assert!(sender.send(Ok(42)).is_ok());
    assert!(mapped.ready());
    let result: Result<String, usize> = mapped.take();
    assert_eq!(result, Ok("42".to_string()));
}

#[test]
fn errors_are_mapped() {
    let (sender, loading) = requested();
    let mut mapped = loading.map_res(|res| match res {
        Ok(number) => Ok(number.to_string()),
        Err(error) => Err(error.to_string().len()),
    });
    assert!(sender.send(Err(LoadError::StreamBuild("1234".to_string()))).is_ok());
    assert!(mapped.ready());
    let result: Result<String, usize> = mapped.take();
    assert_eq!(result, Err(4));
}

#[test]
fn loader_type_can_be_hidden() {
    let (sender, loading) = requested();
    let mut lce = Lce::Loading(loading.map_res(|res| res.map(|number| number + 1))).to_dyn_lce();
    lce.process();
    assert!(matches!(lce, Lce::Loading(_)));
    assert!(sender.send(Ok(1)).is_ok());
    lce.process();
    assert!(matches!(lce, Lce::Content(2)));
}

#[test]
fn other_states_stay_when_the_loader_is_hidden() {
    let waiting: Lce<LoadingDevices<i32>, i32, LoadError> = Lce::Waiting;
    assert!(matches!(waiting.to_dyn_lce(), Lce::Waiting));
    let content: Lce<LoadingDevices<i32>, i32, LoadError> = Lce::Content(3);
    assert!(matches!(content.to_dyn_lce(), Lce::Content(3)));
    let error: Lce<LoadingDevices<i32>, i32, LoadError> = Lce::Error(LoadError::ManagerStopped);
    assert!(matches!(
        error.to_dyn_lce(),
        Lce::Error(LoadError::ManagerStopped)
    ));
}
