use wiggles::clients::{recipients, route, ClientData, Filter, ResponseFilter};
use wiggles::reactor::{
    command_responses, still_running, lift_response_messages, CommandOutcome, Messages, Response, ResponseWrapper,
};
use wiggles::input_count::{flatten, flatten_mut, insert_and_get_mut, push_and_get_mut, InputCount};
use wiggles::simple_hash::{load_u64_le, SimpleHasher};

fn client(id: u32, filter: ResponseFilter) -> ClientData {
    ClientData { id, filter }
}

#[test]
fn filter_from_client_data() {
    assert_eq!(Filter::from(client(3, ResponseFilter::All)), Filter::All);
    assert_eq!(Filter::from(client(3, ResponseFilter::Exclusive)), Filter::One(3));
    assert_eq!(Filter::from(client(3, ResponseFilter::AllButSelf)), Filter::AllBut(3));
}

#[test]
fn recipients_follow_the_filter() {
    let clients = [4, 1, 7];
    assert_eq!(recipients(Filter::All, &clients), vec![4, 1, 7]);
    assert_eq!(recipients(Filter::One(1), &clients), vec![1]);
    assert_eq!(recipients(Filter::One(2), &clients), Vec::<u32>::new());
    assert_eq!(recipients(Filter::AllBut(4), &clients), vec![1, 7]);
}

#[test]
fn routing_of_responses() {
    let quit: ResponseWrapper<Response<()>> = Response::Quit.with_client(client(1, ResponseFilter::Exclusive));
    assert_eq!(route(&quit), (false, Filter::All));
    let saved: ResponseWrapper<Response<()>> = Response::Saved.with_client(client(1, ResponseFilter::AllButSelf));
    assert_eq!(route(&saved), (true, Filter::AllBut(1)));
    let loaded: ResponseWrapper<Response<()>> = Response::Loaded("s".to_string()).no_client();
    assert_eq!(route(&loaded), (true, Filter::All));
}

#[test]
fn wrappers_hold_client_data() {
    let c = client(9, ResponseFilter::All);
    assert_eq!(ResponseWrapper::no_client(5).client_data, None);
    assert_eq!(ResponseWrapper::with_client(5, c).client_data, Some(c));
    assert_eq!(ResponseWrapper::with_client(5, c).payload, 5);
}

#[test]
fn command_outcomes_become_routed_responses() {
    let c = client(2, ResponseFilter::All);
    let r: Messages<ResponseWrapper<Response<u8>>> =
        command_responses(c, CommandOutcome::Renamed("new".to_string(), Err("taken".to_string())));
    assert_eq!(r.0, vec![Response::ShowLibErr("taken".to_string()).no_client()]);
    let r: Messages<ResponseWrapper<Response<u8>>> =
        command_responses(c, CommandOutcome::SavedAs("copy".to_string(), Ok(())));
    assert_eq!(r.0, vec![Response::Renamed("copy".to_string()).no_client()]);
    let r: Messages<ResponseWrapper<Response<u8>>> = command_responses(
        c,
        CommandOutcome::Saves { saves: Some(vec!["a".to_string()]), autosaves: None },
    );
    assert_eq!(
        r.0,
        vec![Response::SavesAvailable { saves: vec!["a".to_string()], autosaves: vec![] }.with_client(c)]
    );
    let r: Messages<ResponseWrapper<Response<u8>>> =
        command_responses(c, CommandOutcome::Loaded(Err("missing".to_string())));
    assert_eq!(r.0, vec![Response::ShowLibErr("missing".to_string()).with_client(c)]);
    let r: Messages<ResponseWrapper<Response<u8>>> = command_responses(c, CommandOutcome::Quit);
    assert_eq!(r.0, vec![Response::Quit.no_client()]);
}

#[test]
fn console_messages_are_lifted_in_order() {
    let c = client(2, ResponseFilter::All);
    let mut msgs = Messages::none();
    msgs.push(ResponseWrapper::no_client(1u8));
    msgs.push(ResponseWrapper::with_client(2u8, c));
    let lifted = lift_response_messages(msgs);
    assert_eq!(
        lifted.0,
        vec![Response::Console(1u8).no_client(), Response::Console(2u8).with_client(c)]
    );
    assert_eq!(Messages::one(3u8).0, vec![3u8]);
}

#[test]
fn input_counts() {
    assert_eq!(InputCount::none(), InputCount::new(0, 0));
    assert_eq!(InputCount::fixed(2), InputCount::new(2, 2));
    assert_eq!(InputCount::up_to(4), InputCount::new(0, 4));
    assert_eq!(InputCount::at_least(1), InputCount::new(1, u32::MAX));
    assert_eq!(InputCount::any(), InputCount::new(0, u32::MAX));
    let c = InputCount::new(1, 3);
    assert!(c.can_push(2));
    assert!(!c.can_push(3));
    assert!(c.can_pop(2));
    assert!(!c.can_pop(1));
}

#[test]
fn optional_slot_helpers() {
    let mut v: Vec<Option<u8>> = vec![None, Some(1)];
    *push_and_get_mut(&mut v, 5) += 1;
    assert_eq!(v, vec![None, Some(1), Some(6)]);
    *insert_and_get_mut(&mut v, 0, 7) += 1;
    assert_eq!(v, vec![Some(8), Some(1), Some(6)]);
    assert_eq!(flatten(v.get(1)), Some(&1));
    assert_eq!(flatten(v.get(9)), None);
    if let Some(x) = flatten_mut(v.get_mut(2)) {
        *x = 0;
    }
    assert_eq!(v[2], Some(0));
    let mut w: Vec<Option<u8>> = vec![None];
    assert_eq!(flatten_mut(w.get_mut(0)), None);
}

#[test]
fn simple_hasher_keeps_the_last_key() {
    let mut h = SimpleHasher::default();
    assert_eq!(h.finish(), 0);
    h.write(&[1, 2]);
    assert_eq!(h.finish(), 0x0201);
    h.write(&7u64.to_le_bytes());
    assert_eq!(h.finish(), 7);
    assert_eq!(load_u64_le(&[0xff, 0xff, 9], 2), 0xffff);
}

#[test]
fn messages_are_wrapped_in_order() {
    let mut m: Messages<u8> = Messages::none();
    m.push(1);
    m.push(2);
    let w: Messages<u32> = Messages::wrap(m);
    assert_eq!(w.0, vec![1u32, 2u32]);
}

#[test]
fn reactor_stops_running_on_quit() {
    assert!(!still_running(true, &CommandOutcome::<u32>::Quit));
    assert!(still_running(true, &CommandOutcome::<u32>::Saved(Ok(()))));
    assert!(!still_running(false, &CommandOutcome::<u32>::Saved(Ok(()))));
}
