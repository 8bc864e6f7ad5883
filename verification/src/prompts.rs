//! The prompts sent to the chat model.
use vstd::prelude::*;

verus! {

/// Body of the "summary" report prompt (meeting results).
pub const PROMPT_SUMMARY: &'static str = "Сделай итоги встречи. Структура (пустые разделы пропускай):\n\
            ## Коротко\n2–3 предложения: о чём был разговор и чем он закончился.\n\
            ## Главное\nКлючевые темы, факты и цифры — маркированный список, по пункту на мысль.\n\
            ## Решения\nЧто решили или согласовали.\n\
            ## Задачи\nСписок «- [ ] что сделать — кто — срок» (кто/срок — только если прозвучали).\n\
            ## Открытые вопросы\nЧто осталось нерешённым или требует уточнения.";

/// Body of the "tasks" report prompt (assignments only).
pub const PROMPT_TASKS: &'static str = "Извлеки из разговора все задачи, поручения и обещания что-то сделать.\n\
            ## Задачи\nТаблица Markdown с колонками: № | Задача | Ответственный | Срок | Откуда \
            (короткая цитата или контекст). Задача — с глагола, конкретно. Ответственный и срок — \
            только если прозвучали, иначе «—».\n\
            ## Договорённости\nСписок того, о чём договорились (без задач).\n\
            ## Нужно уточнить\nЗадачи без ответственного/срока и спорные моменты.\n\
            Если задач нет — так и напиши одной строкой.";

/// Body of the "analysis" report prompt (how the talk went).
pub const PROMPT_ANALYSIS: &'static str = "Сделай аналитический разбор разговора — не пересказ, а оценку.\n\
            ## Участники и их позиции\nЧего хотел каждый, какие интересы стояли за позицией.\n\
            ## Ход разговора\nКлючевые повороты, сильные аргументы, возражения и как на них ответили.\n\
            ## Тон и атмосфера\nНастрой, напряжение, доверие; на чём оно менялось.\n\
            ## Согласие и разногласия\n\
            ## Риски и сигналы\nЧто может пойти не так, недосказанности, противоречия.\n\
            ## Рекомендации\nКонкретные следующие шаги и что сделать иначе в следующий раз.";

/// Body of the "literary" report prompt (the whole talk as clean text).
pub const PROMPT_LITERARY: &'static str = "Перепиши расшифровку в связный, гладкий текст — как хорошо отредактированную \
            статью или конспект, который приятно читать. Сохрани ВСЕ факты, детали, имена, числа, \
            примеры и ход мысли; ничего не сокращай по смыслу. Убери оговорки, повторы, \
            слова-паразиты и обрывы фраз. Абзацы; подзаголовки (##) — только при смене темы. \
            Прямую речь передавай косвенно, указывая, кто говорит.";

/// Body of the "followup" report prompt (a letter to the participants).
pub const PROMPT_FOLLOWUP: &'static str = "Напиши письмо участникам по итогам разговора — готовое к отправке.\n\
            Первая строка — «**Тема:** …». Далее: короткое приветствие; 1–2 предложения, о чём \
            говорили; «Договорились:» — список; «Следующие шаги:» — список «кто — что — срок»; \
            вежливое завершение. Деловой, дружелюбный тон, без канцелярита. Неизвестное \
            (имя адресата, дата) — в квадратных скобках, напр. [имя].";

/// Body of the "agent" report prompt (instructions for an AI agent).
pub const PROMPT_AGENT: &'static str = "Составь из разговора максимально полезную инструкцию (промпт) для ИИ-агента, \
            который будет выполнять обсуждённую работу — например, писать код, готовить \
            документ или анализ. Агент не слышал разговор: передай ему всё нужное, убери \
            болтовню. Обращайся к агенту на «ты», в повелительном наклонении. Структура:\n\
            # Задача\nОдин абзац: что сделать и зачем (какую проблему решаем).\n\
            ## Контекст\nПроект/продукт, пользователи, текущее состояние, что уже есть и \
            что не работает — только факты из разговора.\n\
            ## Требования\nНумерованный список: конкретно, проверяемо, по одному требованию \
            в пункте. Приоритет — пометкой (обязательно / желательно).\n\
            ## Ограничения и договорённости\nТехнологии, стек, форматы, сроки, что \
            нельзя менять или делать, принятые решения и их причины.\n\
            ## Детали\nТочные имена, термины, числа, названия файлов/функций/экранов, \
            примеры и цитаты — дословно, как прозвучали.\n\
            ## Критерии готовности\nЧек-лист «- [ ] …»: по чему понять, что задача сделана.\n\
            ## Открытые вопросы\nЧто в разговоре не решено или неоднозначно — агент должен \
            уточнить это, а не додумывать.\n\
            Если в разговоре несколько независимых задач — сделай для каждой свой блок \
            «# Задача …». Если прямой рабочей задачи нет — сформулируй инструкцию для \
            продолжения темы разговора.";

/// Rules shared by every report prompt.
pub const RULES: &'static str = "Пиши по-русски (если разговор на другом языке — на языке разговора). \
    Опирайся ТОЛЬКО на расшифровку: ничего не выдумывай, не додумывай имён, сроков и цифр; \
    если чего-то не прозвучало — так и пиши или пропускай. Расшифровка сделана автоматически \
    и может содержать ошибки распознавания — восстанавливай очевидный смысл, но не \
    сочиняй. Называй людей так, как они подписаны в расшифровке. Без вступлений \
    вроде «Вот итоги» — сразу результат в Markdown.";

/// System prompt of a one-pass summary.
pub const SUMMARIZE_SYSTEM: &'static str = "Сделай структурированную выжимку разговора в формате Markdown: \
        заголовки (##), маркированные списки, выделение важного. Разделы: краткое \
        резюме, ключевые темы, решения, задачи и договорённости. По-русски, по делу.";

/// System prompt of a one-pass brief summary.
pub const BRIEF_SYSTEM: &'static str = "Дай очень краткое резюме разговора: 2–4 предложения о том, о чём шла \
        речь и какой главный итог. Без списков и заголовков, по-русски, по делу.";

/// System prompt of a one-pass analysis.
pub const ANALYZE_SYSTEM: &'static str = "Сделай аналитический разбор разговора в формате Markdown: позиции и \
        интересы сторон, ключевые аргументы, тон/настроение, принятые решения и \
        договорённости, открытые вопросы и разногласия, риски, рекомендуемые следующие \
        шаги. Заголовки (##) и списки. Опирайся только на сказанное, ничего не выдумывай. \
        По-русски.";

/// System prompt of a one-pass literary rewrite.
pub const LITERARY_SYSTEM: &'static str = "Перепиши расшифровку разговора в связный, гладкий литературный текст. \
        Сохрани ВСЕ обсуждаемые факты, детали, имена, числа и смысл; ничего не \
        выдумывай и не добавляй того, чего не было. Убери оговорки, повторы, \
        слова-паразиты и обрывы фраз. Оформи абзацами, по-русски. Без заголовков \
        и без вступлений вроде «в этом разговоре» — сразу текст.";

/// System prompt of a question about the transcript.
pub const ANSWER_SYSTEM: &'static str = "Отвечай на вопрос пользователя, опираясь на расшифровку разговора. \
        Если ответа в разговоре нет — так и скажи.";

/// System prompt that rewrites one part of a long talk.
pub const LITERARY_PART_SYSTEM: &'static str = "Перепиши ЭТУ ЧАСТЬ разговора в связный литературный текст, \
            сохраняя все детали, факты и смысл именно этого фрагмента. Убери оговорки, \
            повторы и слова-паразиты. Без вступлений и выводов — только переложение \
            этой части. Оформи абзацами, по-русски.";

/// System prompt that asks for meeting metadata as JSON.
pub const METADATA_SYSTEM: &'static str = "Ты анализируешь расшифровку разговора и возвращаешь СТРОГО JSON с полями \
        title (короткий заголовок встречи), participants (участники через запятую), \
        topic (тема одним предложением). Только JSON, без пояснений.";

/// System prompt that asks for a concise title, participants and topic as JSON.
pub const METADATA_CTX_SYSTEM: &'static str = "По расшифровке разговора верни СТРОГО JSON без пояснений с полями:\n\
        title — конкретный заголовок встречи в 3–7 слов, по сути разговора, без кавычек и \
        слов «встреча/разговор/обсуждение» в начале (пример: «Бюджет рекламы на III квартал»);\n\
        participants — имена участников через запятую, только если они прозвучали \
        (иначе пустая строка);\n\
        topic — тема одним коротким предложением.\n\
        Язык — язык разговора.";

/// System prompt that summarizes one part of a long talk.
pub const SUMMARY_PART_SYSTEM: &'static str = "Ты конспектируешь ОДНУ ЧАСТЬ длинного разговора. Кратко и по делу \
            изложи ключевые моменты, решения и задачи именно из этого фрагмента. \
            По-русски. Без вступлений.";

/// System prompt that analyses one part of a long talk.
pub const ANALYSIS_PART_SYSTEM: &'static str = "Проанализируй ОДНУ ЧАСТЬ длинного разговора: позиции сторон, \
            ключевые моменты, решения, разногласия и риски именно этого фрагмента. \
            По-русски, без вступлений.";

/// System prompt that condenses a digest into a brief summary.
pub const BRIEF_DIGEST_SYSTEM: &'static str = "Сожми эту выжимку до очень краткого резюме в 2–4 предложения: главная \
        суть и итог. Без списков и заголовков, по-русски.";

/// System prompt that merges part summaries into one.
pub const SUMMARY_MERGE_SYSTEM: &'static str = "Объедини конспекты частей одного разговора в единую связную итоговую \
        выжимку в формате Markdown: заголовки (##), списки, выделение важного. \
        Разделы: краткое резюме, ключевые темы, решения, задачи и договорённости. \
        Не повторяйся, убери дубли. По-русски.";

/// System prompt that merges part analyses into one.
pub const ANALYSIS_MERGE_SYSTEM: &'static str = "Объедини анализы частей разговора в единый аналитический разбор \
        (Markdown: ## и списки): позиции сторон, ключевые аргументы, решения, открытые \
        вопросы, риски, следующие шаги. Без повторов и дублей. По-русски.";

/// Start of the system prompt that takes working notes on one part of a long talk (the report rules follow it).
pub const NOTES_SYSTEM: &'static str = "Ты готовишь подробные рабочие заметки по ОДНОЙ ЧАСТИ длинного разговора, чтобы \
         потом по ним собрать итоговый отчёт. Выпиши: темы и ключевые факты/цифры, решения, \
         задачи и обещания (кто — что — срок), позиции и возражения участников, важные \
         цитаты, открытые вопросы. Кратко, списками, ничего важного не теряя.";

} // verus!
