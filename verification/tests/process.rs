use frontier::batch::{AppLoader, AppStep, APP_BASE_ADDRESS, APP_SIZE_LIMIT};
use frontier::context::{TrapContext, SSTATUS_SPP};
use frontier::path::find_lookups;
use frontier::space::{trampoline_virtual_page_number, trap_context_virtual_page_number};

fn lookups(path: &str) -> Vec<(String, bool)> {
    find_lookups(path)
}

#[test]
fn path_lookups_skip_the_root() {
    assert_eq!(lookups("/bin/ls"), vec![(String::from("bin"), false), (String::from("ls"), true)]);
    assert_eq!(lookups("ls"), vec![(String::from("ls"), true)]);
    assert_eq!(lookups(""), Vec::<(String, bool)>::new());
    assert_eq!(lookups("/"), vec![(String::new(), true)]);
    assert_eq!(lookups("a//b/"), vec![
        (String::from("a"), false),
        (String::new(), false),
        (String::from("b"), false),
        (String::new(), true),
    ]);
}

#[test]
fn app_loader_walks_the_batch() {
    let mut loader = AppLoader::new(2, vec![0x8020_0000, 0x8020_1000, 0x8020_3000]);
    assert_eq!(loader.get_current_app(), 0);
    assert_eq!(loader.load_app(0), AppStep::Load { start: 0x8020_0000, end: 0x8020_1000 });
    loader.move_to_next_app();
    assert_eq!(loader.get_current_app(), 1);
    assert_eq!(loader.load_app(1), AppStep::Load { start: 0x8020_1000, end: 0x8020_3000 });
    loader.move_to_next_app();
    assert_eq!(loader.load_app(2), AppStep::AllCompleted);
    assert_eq!(AppLoader::get_base_address(3), APP_BASE_ADDRESS + 3 * APP_SIZE_LIMIT);
}

#[test]
fn app_context_starts_in_user_mode() {
    let cx = TrapContext::create_app_init_context(0x1000, 0x8000, 0x8000_0122);
    assert_eq!(cx.sepc, 0x1000);
    assert_eq!(cx.x[2], 0x8000);
    assert_eq!(cx.x[1], 0);
    assert_eq!(cx.sstatus, 0x8000_0022);
    assert_eq!(cx.sstatus & SSTATUS_SPP, 0);
    let mut cx = cx;
    cx.set_sp(0x9000);
    assert_eq!(cx.x[2], 0x9000);
}

#[test]
fn trap_context_page_is_below_trampoline() {
    assert_eq!(trap_context_virtual_page_number() + 1, trampoline_virtual_page_number());
}
