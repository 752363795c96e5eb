use receipt_printer::cups::{
    check_usb_access, cups_conflict_hint, is_claimed_by_cups, linux_usb_warnings, parse_lpstat_output,
};

#[test]
fn parse_epson_usb_printer() {
    let output = "device for EPSON_TM_T88VI: usb://EPSON/TM-T88VI?serial=J2CE012345\n";
    let printers = parse_lpstat_output(output);
    assert_eq!(printers.len(), 1);
    assert!(printers[0].is_usb);
    assert!(printers[0].is_epson);
    assert_eq!(printers[0].name, "EPSON_TM_T88VI");
}

#[test]
fn parse_network_printer_no_conflict() {
    let output = "device for HP_LaserJet: ipp://192.168.1.100/ipp/print\n";
    let printers = parse_lpstat_output(output);
    assert_eq!(printers.len(), 1);
    assert!(!printers[0].is_usb);
    assert!(!printers[0].is_epson);
}

#[test]
fn parse_multiple_printers() {
    let output = "\
device for EPSON_TM_T88VI: usb://EPSON/TM-T88VI?serial=J2CE012345
device for HP_LaserJet: ipp://192.168.1.100/ipp/print
device for EPSON_TM_M50: usb://EPSON/TM-M50?serial=ABC123
";
    let printers = parse_lpstat_output(output);
    assert_eq!(printers.len(), 3);

    let epson_usb: Vec<_> = printers.iter().filter(|p| p.is_usb && p.is_epson).collect();
    assert_eq!(epson_usb.len(), 2);
}

#[test]
fn parse_empty_output() {
    let printers = parse_lpstat_output("");
    assert!(printers.is_empty());
}

#[test]
fn check_usb_access_no_cups() {
    let warnings = check_usb_access(&parse_lpstat_output(""));
    assert!(warnings.len() <= 10);
    assert!(warnings.is_empty());
}

#[test]
fn lpstat_skips_other_lines_and_trims() {
    let output = "scheduler is running\n  device for  Receipt : usb://Seiko/X \ndevice for broken line\n";
    let printers = parse_lpstat_output(output);
    assert_eq!(printers.len(), 1);
    assert_eq!(printers[0].name, "Receipt");
    assert_eq!(printers[0].uri, "usb://Seiko/X");
    assert!(printers[0].is_usb);
    assert!(!printers[0].is_epson);
}

#[test]
fn epson_match_ignores_case_in_name() {
    let printers = parse_lpstat_output("device for my_Epson: usb://Vendor/Model\n");
    assert!(printers[0].is_epson);
}

#[test]
fn warns_once_per_conflicting_queue() {
    let printers = parse_lpstat_output(
        "device for EPSON_A: usb://EPSON/A\ndevice for HP: ipp://h/p\ndevice for EPSON_B: ipp://EPSON/B\n",
    );
    let warnings = check_usb_access(&printers);
    assert_eq!(
        warnings,
        vec![
            "CUPS conflict: \"EPSON_A\" is claiming USB. Remove it from System Settings > Printers & Scanners, or run: lpadmin -x EPSON_A".to_string()
        ]
    );
}

#[test]
fn claimed_by_name_either_way() {
    let printers = parse_lpstat_output("device for EPSON_TM_T88VI: usb://EPSON/TM-T88VI\n");
    assert!(is_claimed_by_cups(&printers, "tm_t88vi"));
    assert!(is_claimed_by_cups(&printers, "Epson_TM_T88VI_Receipt"));
    assert!(!is_claimed_by_cups(&printers, "TM-M50"));
    assert!(!is_claimed_by_cups(&[], "anything"));
}

#[test]
fn hint_without_conflict() {
    let hint = cups_conflict_hint(&[], 0x0e28, "busy");
    assert_eq!(
        hint,
        "Failed to open USB device (PID 0e28): busy\nTip: On macOS, check System Settings > Privacy & Security > USB access."
    );
}

#[test]
fn hint_names_conflicting_queues() {
    let printers = parse_lpstat_output("device for EPSON_A: usb://EPSON/A\ndevice for EPSON_B: usb://EPSON/B\n");
    let hint = cups_conflict_hint(&printers, 0x0e15, "denied");
    assert_eq!(
        hint,
        "Cannot open USB device (PID 0e15): macOS CUPS driver is claiming the interface.\nConflicting CUPS printer(s): EPSON_A, EPSON_B\nFix: Remove from System Settings > Printers & Scanners, or run:\n  lpadmin -x EPSON_A\n  lpadmin -x EPSON_B"
    );
}

#[test]
fn linux_warnings_for_rules_and_groups() {
    assert!(linux_usb_warnings(true, Some("user adm plugdev")).is_empty());
    assert!(linux_usb_warnings(true, Some("user lp")).is_empty());
    assert!(linux_usb_warnings(true, None).is_empty());
    let both = linux_usb_warnings(false, Some("user wheel"));
    assert_eq!(both.len(), 2);
    assert!(both[0].starts_with("Linux: udev rules not found at /etc/udev/rules.d/99-epson-receipt.rules."));
    assert!(both[1].contains("'plugdev' or 'lp'"));
}
