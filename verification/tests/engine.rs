use sapience::class_factory::{
    get_class_object, ClassFactory, ClassObjectError, CreateError, LiveObjects, RequestedInterface,
};
use sapience::clsid::{CLSID_SAPIENCE_VOICE, VOICE_DISPLAY_NAME, VOICE_TOKEN_NAME};
use sapience::nvda::{hresult_from_win32, to_result, SpeechPriority, SymbolLevel};
use sapience::registry::{
    clsid_braced, clsid_key_path, registration_values, unregistration_targets, voice_token_path,
    COM_CLS_FOLDER, VOICES_TOKENS_FOLDER,
};
use sapience::tts_engine::TtsEngine;

#[test]
fn create_engine_via_class_factory() {
    let f = ClassFactory;
    let mut live = LiveObjects::new();
    // NVDA not running: construction is allowed.
    let r = f.create_instance(&mut live, false, None, 1234, RequestedInterface::TtsEngine);
    assert!(matches!(r, Ok((TtsEngine, RequestedInterface::TtsEngine))));
    // NVDA running in another process: allowed as well.
    let r = f.create_instance(&mut live, false, Some(99), 1234, RequestedInterface::Unknown);
    assert!(matches!(r, Ok((_, RequestedInterface::Unknown))));
    let r = f.create_instance(&mut live, false, Some(99), 1234, RequestedInterface::ObjectWithToken);
    assert!(matches!(r, Ok((_, RequestedInterface::ObjectWithToken))));
}

#[test]
fn refuses_when_pid_matches_nvda() {
    let f = ClassFactory;
    let mut live = LiveObjects::new();
    let r = f.create_instance(&mut live, false, Some(1234), 1234, RequestedInterface::Unknown);
    assert!(matches!(r, Err(CreateError::ClassNotAvailable)));
}

#[test]
fn class_factory_refusals() {
    let f = ClassFactory;
    let mut live = LiveObjects::new();
    assert!(matches!(
        f.create_instance(&mut live, true, Some(1234), 1234, RequestedInterface::Unknown),
        Err(CreateError::NoAggregation)
    ));
    assert!(matches!(
        f.create_instance(&mut live, false, None, 1, RequestedInterface::Other),
        Err(CreateError::NoInterface)
    ));
    assert!(matches!(
        f.create_instance(&mut live, false, Some(1), 1, RequestedInterface::Other),
        Err(CreateError::ClassNotAvailable)
    ));
}

#[test]
fn register_creates_keys_unregister_removes_them() {
    let cls_path = r"SOFTWARE\Classes\CLSID\{5A91E9CE-2BC7-4F8E-9DA1-4D7C9F2E7E11}";
    assert_eq!(clsid_key_path(), cls_path);
    assert_eq!(voice_token_path(), r"SOFTWARE\Microsoft\Speech\Voices\Tokens\SAPIence");
    let values: Vec<(String, String, String)> = registration_values(r"C:\x\sapience.dll")
        .into_iter()
        .map(|v| (v.key, v.name, v.data))
        .collect();
    let has = |k: &str, n: &str, d: &str| {
        values.contains(&(k.to_string(), n.to_string(), d.to_string()))
    };
    assert!(has(cls_path, "", "SAPIence (NVDA)"));
    let inproc = format!(r"{cls_path}\InprocServer32");
    assert!(has(&inproc, "", r"C:\x\sapience.dll"));
    assert!(has(&inproc, "ThreadingModel", "Both"));
    let token = r"SOFTWARE\Microsoft\Speech\Voices\Tokens\SAPIence";
    assert!(has(token, "", "SAPIence (NVDA)"));
    assert!(has(token, "CLSID", "{5A91E9CE-2BC7-4F8E-9DA1-4D7C9F2E7E11}"));
    assert!(has(token, "LangDataPath", ""));
    assert!(has(token, "VoiceDataPath", ""));
    let attrs = format!(r"{token}\Attributes");
    assert!(has(&attrs, "Name", "SAPIence"));
    assert!(has(&attrs, "Vendor", "Leonard de Ruijter"));
    assert!(has(&attrs, "Age", "Adult"));
    assert!(has(&attrs, "Gender", "Neutral"));
    assert!(has(&attrs, "Language", "409"));
    assert!(has(&attrs, "Version", "1.0"));
    assert_eq!(values.len(), 13);

    let targets = unregistration_targets();
    assert_eq!(
        targets,
        vec![
            (VOICES_TOKENS_FOLDER.to_string(), VOICE_TOKEN_NAME.to_string()),
            (COM_CLS_FOLDER.to_string(), "{5A91E9CE-2BC7-4F8E-9DA1-4D7C9F2E7E11}".to_string()),
        ]
    );
}

#[test]
fn clsid_text_form() {
    assert_eq!(CLSID_SAPIENCE_VOICE, 0x5A91_E9CE_2BC7_4F8E_9DA1_4D7C_9F2E_7E11);
    assert_eq!(clsid_braced(), "{5A91E9CE-2BC7-4F8E-9DA1-4D7C9F2E7E11}");
    assert_eq!(VOICE_DISPLAY_NAME, "SAPIence (NVDA)");
}

#[test]
fn controller_codes() {
    assert_eq!(SpeechPriority::Normal.code(), 0);
    assert_eq!(SpeechPriority::Next.code(), 1);
    assert_eq!(SpeechPriority::Now.code(), 2);
    assert_eq!(SymbolLevel::NoSymbols.code(), 0);
    assert_eq!(SymbolLevel::SomeSymbols.code(), 100);
    assert_eq!(SymbolLevel::Most.code(), 200);
    assert_eq!(SymbolLevel::All.code(), 300);
    assert_eq!(SymbolLevel::Char.code(), 1000);
    assert_eq!(SymbolLevel::Unchanged.code(), -1);
}

#[test]
fn win32_status_mapping() {
    assert_eq!(to_result(0), Ok(()));
    // ERROR_FILE_NOT_FOUND -> 0x80070002
    assert_eq!(to_result(2), Err(0x8007_0002u32 as i32));
    // RPC_S_SERVER_UNAVAILABLE (1722) -> 0x800706BA
    assert_eq!(hresult_from_win32(1722), 0x8007_06BAu32 as i32);
    // Already an HRESULT (negative as i32): passed through.
    assert_eq!(hresult_from_win32(0x8000_4005), 0x8000_4005u32 as i32);
}

#[test]
fn live_count_follows_engines() {
    let f = ClassFactory;
    let mut live = LiveObjects::new();
    assert!(live.can_unload());
    assert!(f.create_instance(&mut live, false, None, 1, RequestedInterface::TtsEngine).is_ok());
    assert_eq!(live.count(), 1);
    assert!(!live.can_unload());
    assert!(f.create_instance(&mut live, false, Some(1), 1, RequestedInterface::TtsEngine).is_err());
    assert!(f.create_instance(&mut live, true, None, 1, RequestedInterface::TtsEngine).is_err());
    assert!(f.create_instance(&mut live, false, None, 1, RequestedInterface::Other).is_err());
    assert_eq!(live.count(), 1);
    assert!(f.create_instance(&mut live, false, None, 1, RequestedInterface::Unknown).is_ok());
    assert_eq!(live.count(), 2);
    live.release();
    live.release();
    assert!(live.can_unload());
    live.release();
    assert_eq!(live.count(), 0);
}

#[test]
fn class_object_only_for_the_voice_and_the_factory_interface() {
    assert!(get_class_object(CLSID_SAPIENCE_VOICE, true).is_ok());
    assert!(matches!(
        get_class_object(CLSID_SAPIENCE_VOICE, false),
        Err(ClassObjectError::Unexpected)
    ));
    assert!(matches!(
        get_class_object(CLSID_SAPIENCE_VOICE + 1, true),
        Err(ClassObjectError::ClassNotAvailable)
    ));
    assert!(matches!(get_class_object(0, false), Err(ClassObjectError::ClassNotAvailable)));
}

#[test]
fn unregistration_removes_every_key_registration_writes() {
    let targets: Vec<String> = unregistration_targets()
        .into_iter()
        .map(|(folder, name)| format!(r"{folder}\{name}"))
        .collect();
    for v in registration_values(r"C:\x\sapience.dll") {
        assert!(
            targets.iter().any(|t| v.key == *t || v.key.starts_with(&format!(r"{t}\"))),
            "key {} is not removed",
            v.key
        );
    }
}
